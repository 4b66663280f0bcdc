//! `ingest` command: node types it accepts and its exit codes.

use vstd::prelude::*;

use crate::keyed::str_eq;
use crate::text::{concat2, owned, push_str};

verus! {

/// Exit code on success.
pub const EXIT_OK: i32 = 0;

/// Exit code when the schema check, the build or validation fails.
pub const EXIT_VALIDATION_FAILURE: i32 = 1;

/// Exit code when the input is not a JSON object.
pub const EXIT_JSON_PARSE_ERROR: i32 = 2;

/// Exit code when a required argument is missing.
pub const EXIT_MISSING_ARG: i32 = 3;

/// The built-in node types.
#[derive(Debug, Clone, Copy, PartialEq, Eq, Structural)]
pub enum NodeType {
    /// `facts`
    Facts,
    /// `rules`
    Rules,
    /// `workflow`
    Workflow,
    /// `entity`
    Entity,
    /// `decision`
    Decision,
    /// `exception`
    Exception,
    /// `example`
    Example,
    /// `glossary`
    Glossary,
    /// `anti_pattern`
    AntiPattern,
    /// `orchestration`
    Orchestration,
    /// `ticket`
    Ticket,
}

impl NodeType {
    /// The type's name.
    pub open spec fn spec_name(self) -> Seq<char> {
        match self {
            NodeType::Facts => "facts"@,
            NodeType::Rules => "rules"@,
            NodeType::Workflow => "workflow"@,
            NodeType::Entity => "entity"@,
            NodeType::Decision => "decision"@,
            NodeType::Exception => "exception"@,
            NodeType::Example => "example"@,
            NodeType::Glossary => "glossary"@,
            NodeType::AntiPattern => "anti_pattern"@,
            NodeType::Orchestration => "orchestration"@,
            NodeType::Ticket => "ticket"@,
        }
    }

    /// The type's name.
    pub fn as_str(&self) -> (r: &'static str)
        ensures
            r@ == self.spec_name(),
    {
        match self {
            NodeType::Facts => "facts",
            NodeType::Rules => "rules",
            NodeType::Workflow => "workflow",
            NodeType::Entity => "entity",
            NodeType::Decision => "decision",
            NodeType::Exception => "exception",
            NodeType::Example => "example",
            NodeType::Glossary => "glossary",
            NodeType::AntiPattern => "anti_pattern",
            NodeType::Orchestration => "orchestration",
            NodeType::Ticket => "ticket",
        }
    }
}

/// The node type `ingest` reads from `s`: a type's name, or
/// `anti-pattern` for `anti_pattern`.
pub open spec fn ingest_type_spec(s: Seq<char>) -> Option<NodeType> {
    if s == "facts"@ {
        Some(NodeType::Facts)
    } else if s == "rules"@ {
        Some(NodeType::Rules)
    } else if s == "workflow"@ {
        Some(NodeType::Workflow)
    } else if s == "entity"@ {
        Some(NodeType::Entity)
    } else if s == "decision"@ {
        Some(NodeType::Decision)
    } else if s == "exception"@ {
        Some(NodeType::Exception)
    } else if s == "example"@ {
        Some(NodeType::Example)
    } else if s == "glossary"@ {
        Some(NodeType::Glossary)
    } else if s == "anti_pattern"@ || s == "anti-pattern"@ {
        Some(NodeType::AntiPattern)
    } else if s == "orchestration"@ {
        Some(NodeType::Orchestration)
    } else if s == "ticket"@ {
        Some(NodeType::Ticket)
    } else {
        None
    }
}

/// The message for a type `ingest` does not know.
pub open spec fn unknown_type_message(s: Seq<char>) -> Seq<char> {
    "unknown node type `"@ + s
        + "`; supported: facts, rules, workflow, entity, decision, exception, example, glossary, anti_pattern, orchestration, ticket"@
}

/// The node type named by the `--type` argument of `ingest`.
pub fn parse_node_type(s: &str) -> (r: Result<NodeType, String>)
    ensures
        match r {
            Ok(t) => ingest_type_spec(s@) == Some(t),
            Err(m) => ingest_type_spec(s@) is None && m@ == unknown_type_message(s@),
        },
{
    if str_eq(s, "facts") {
        Ok(NodeType::Facts)
    } else if str_eq(s, "rules") {
        Ok(NodeType::Rules)
    } else if str_eq(s, "workflow") {
        Ok(NodeType::Workflow)
    } else if str_eq(s, "entity") {
        Ok(NodeType::Entity)
    } else if str_eq(s, "decision") {
        Ok(NodeType::Decision)
    } else if str_eq(s, "exception") {
        Ok(NodeType::Exception)
    } else if str_eq(s, "example") {
        Ok(NodeType::Example)
    } else if str_eq(s, "glossary") {
        Ok(NodeType::Glossary)
    } else if str_eq(s, "anti_pattern") || str_eq(s, "anti-pattern") {
        Ok(NodeType::AntiPattern)
    } else if str_eq(s, "orchestration") {
        Ok(NodeType::Orchestration)
    } else if str_eq(s, "ticket") {
        Ok(NodeType::Ticket)
    } else {
        let mut m = owned("unknown node type `");
        push_str(&mut m, s);
        push_str(
            &mut m,
            "`; supported: facts, rules, workflow, entity, decision, exception, example, glossary, anti_pattern, orchestration, ticket",
        );
        Err(m)
    }
}

/// What went wrong in an ingest, as far as the exit code and the message
/// go.
pub enum IngestErrorKind {
    /// The input is not a JSON object.
    NotAnObject,
    /// The pre-build schema check failed.
    SchemaCheck(String),
    /// No node id was given or found.
    MissingId,
    /// Building the node failed.
    Build(String),
    /// The input is not JSON.
    JsonParse(String),
    /// Items of a batch failed: their positions and messages.
    Batch(Vec<(usize, String)>),
}

/// The exit code for an ingest error.
pub fn ingest_error_exit_code(e: &IngestErrorKind) -> (r: i32)
    ensures
        r == match e {
            IngestErrorKind::NotAnObject | IngestErrorKind::JsonParse(_) => EXIT_JSON_PARSE_ERROR,
            IngestErrorKind::MissingId => EXIT_MISSING_ARG,
            _ => EXIT_VALIDATION_FAILURE,
        },
{
    match e {
        IngestErrorKind::NotAnObject | IngestErrorKind::JsonParse(_) => EXIT_JSON_PARSE_ERROR,
        IngestErrorKind::MissingId => EXIT_MISSING_ARG,
        IngestErrorKind::SchemaCheck(_) | IngestErrorKind::Build(_) | IngestErrorKind::Batch(_) => EXIT_VALIDATION_FAILURE,
    }
}

/// The first line of the message for an ingest error (a batch adds one
/// line per failed item).
pub open spec fn ingest_error_head(e: IngestErrorKind) -> Seq<char> {
    match e {
        IngestErrorKind::NotAnObject => "error: input is not a JSON object"@,
        IngestErrorKind::SchemaCheck(m) => "error: schema check failed: "@ + m@,
        IngestErrorKind::MissingId => "error: node id is missing \u{2014} pass --id or include a \"node\" field in the JSON"@,
        IngestErrorKind::Build(m) => "error: build failed: "@ + m@,
        IngestErrorKind::JsonParse(m) => "error: JSON parse error: "@ + m@,
        IngestErrorKind::Batch(v) => "error: batch ingest failed ("@ + crate::runtime::duration::decimal(v@.len())
            + " error(s)):"@,
    }
}

/// The first line of the message for an ingest error.
pub fn ingest_error_line(e: &IngestErrorKind) -> (r: String)
    ensures
        r@ == ingest_error_head(*e),
{
    match e {
        IngestErrorKind::NotAnObject => owned("error: input is not a JSON object"),
        IngestErrorKind::SchemaCheck(m) => concat2("error: schema check failed: ", m.as_str()),
        IngestErrorKind::MissingId => owned("error: node id is missing \u{2014} pass --id or include a \"node\" field in the JSON"),
        IngestErrorKind::Build(m) => concat2("error: build failed: ", m.as_str()),
        IngestErrorKind::JsonParse(m) => concat2("error: JSON parse error: ", m.as_str()),
        IngestErrorKind::Batch(v) => {
            let mut r = owned("error: batch ingest failed (");
            push_str(&mut r, crate::runtime::duration::decimal_string(v.len() as u64).as_str());
            push_str(&mut r, " error(s)):");
            r
        },
    }
}

} // verus!
