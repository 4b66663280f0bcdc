//! `schema` command: arguments, and where `schema all` writes each type's
//! schema.

use vstd::prelude::*;

use crate::bench::cassette::{join_path, path_join};
use crate::commands::ingest::NodeType;
use crate::text::{owned, push_str};

verus! {

/// Exit code on success.
pub const EXIT_OK: i32 = 0;

/// Exit code for a type without a schema.
pub const EXIT_UNKNOWN_TYPE: i32 = 1;

/// Exit code for unusable flags or output.
pub const EXIT_INVALID_FLAGS: i32 = 2;

/// `--format` argument.
#[derive(Debug, Clone, Copy, PartialEq, Eq, Structural)]
pub enum SchemaFormatArg {
    /// JSON Schema (default).
    JsonSchema,
    /// YAML output.
    Yaml,
}

/// `--for` argument.
#[derive(Debug, Clone, Copy, PartialEq, Eq, Structural)]
pub enum DialectArg {
    /// Raw JSON Schema (default).
    Vanilla,
    /// Anthropic tool-use shape.
    AnthropicToolUse,
    /// OpenAI function-calling shape.
    OpenAiTool,
}

/// The node types `schema all` writes, in order.
pub open spec fn all_types_spec() -> Seq<NodeType> {
    seq![
        NodeType::Facts,
        NodeType::Rules,
        NodeType::Workflow,
        NodeType::Entity,
        NodeType::Decision,
        NodeType::Exception,
        NodeType::Example,
        NodeType::Glossary,
        NodeType::AntiPattern,
        NodeType::Orchestration,
        NodeType::Ticket,
    ]
}

/// The node types `schema all` writes, in order.
pub fn all_types() -> (r: Vec<NodeType>)
    ensures
        r@ == all_types_spec(),
{
    let r = vec![
        NodeType::Facts,
        NodeType::Rules,
        NodeType::Workflow,
        NodeType::Entity,
        NodeType::Decision,
        NodeType::Exception,
        NodeType::Example,
        NodeType::Glossary,
        NodeType::AntiPattern,
        NodeType::Orchestration,
        NodeType::Ticket,
    ];
    assert(r@ =~= all_types_spec());
    r
}

/// The subdirectory for a dialect's schemas (none for plain JSON Schema).
pub open spec fn dialect_subdir_spec(d: DialectArg) -> Option<Seq<char>> {
    match d {
        DialectArg::Vanilla => None,
        DialectArg::AnthropicToolUse => Some("anthropic_tool_use"@),
        DialectArg::OpenAiTool => Some("openai_tool"@),
    }
}

/// The file extension for a format.
pub open spec fn schema_ext_spec(f: SchemaFormatArg) -> Seq<char> {
    match f {
        SchemaFormatArg::Yaml => "yaml"@,
        SchemaFormatArg::JsonSchema => "json"@,
    }
}

/// The directory `schema all` writes into.
pub open spec fn schema_dir_spec(out_dir: Seq<char>, d: DialectArg) -> Seq<char> {
    match dialect_subdir_spec(d) {
        None => out_dir,
        Some(sub) => path_join(out_dir, sub),
    }
}

/// The directory `schema all` writes into: the output directory, or its
/// subdirectory for the dialect.
pub fn schema_dir(out_dir: &str, d: DialectArg) -> (r: String)
    ensures
        r@ == schema_dir_spec(out_dir@, d),
{
    match d {
        DialectArg::Vanilla => owned(out_dir),
        DialectArg::AnthropicToolUse => join_path(out_dir, "anthropic_tool_use"),
        DialectArg::OpenAiTool => join_path(out_dir, "openai_tool"),
    }
}

/// The file `schema all` writes a type's schema to.
pub fn schema_file_path(dir: &str, t: NodeType, f: SchemaFormatArg) -> (r: String)
    ensures
        r@ == path_join(dir@, t.spec_name() + "."@ + schema_ext_spec(f)),
{
    let mut name = owned(t.as_str());
    push_str(&mut name, ".");
    match f {
        SchemaFormatArg::Yaml => push_str(&mut name, "yaml"),
        SchemaFormatArg::JsonSchema => push_str(&mut name, "json"),
    }
    join_path(dir, name.as_str())
}

} // verus!
