//! The parts of a parsed AGM file that the runtime reads.

use vstd::prelude::*;

use crate::runtime::memory::MemoryEntry;

verus! {

/// File header fields used by the runtime.
pub struct Header {
    /// Package identifier.
    pub package: String,
    /// Package version.
    pub version: String,
}

/// A node of an AGM file, reduced to the fields the runtime reads.
pub struct Node {
    /// Node id, unique within the file.
    pub id: String,
    /// One-line summary.
    pub summary: String,
    /// Ids of the nodes this node depends on.
    pub depends: Option<Vec<String>>,
    /// What to put in the agent's context when the node runs.
    pub agent_context: Option<AgentContext>,
    /// Checks that decide whether the node succeeded.
    pub verify: Option<Vec<VerifyCheck>>,
    /// A code block to apply.
    pub code: Option<CodeBlock>,
    /// More code blocks to apply.
    pub code_blocks: Option<Vec<CodeBlock>>,
    /// Memory entries the node reads or writes.
    pub memory: Option<Vec<MemoryEntry>>,
}

/// A verification check of a node.
pub enum VerifyCheck {
    /// Run a shell command; `expect` says what counts as success.
    Command { run: String, expect: Option<String> },
    /// A file must exist.
    FileExists { file: String },
    /// A file must contain a pattern.
    FileContains { file: String, pattern: String },
    /// A file must not contain a pattern.
    FileNotContains { file: String, pattern: String },
    /// Another node must have a status.
    NodeStatus { node: String, status: String },
}

impl VerifyCheck {
    /// A copy of the check.
    pub fn copy(&self) -> (r: VerifyCheck)
        ensures
            r == *self,
    {
        match self {
            VerifyCheck::Command { run, expect } => VerifyCheck::Command {
                run: run.clone(),
                expect: match expect {
                    Some(e) => Some(e.clone()),
                    None => None,
                },
            },
            VerifyCheck::FileExists { file } => VerifyCheck::FileExists { file: file.clone() },
            VerifyCheck::FileContains { file, pattern } => VerifyCheck::FileContains {
                file: file.clone(),
                pattern: pattern.clone(),
            },
            VerifyCheck::FileNotContains { file, pattern } => VerifyCheck::FileNotContains {
                file: file.clone(),
                pattern: pattern.clone(),
            },
            VerifyCheck::NodeStatus { node, status } => VerifyCheck::NodeStatus {
                node: node.clone(),
                status: status.clone(),
            },
        }
    }
}

/// What a code block does with its target file.
#[derive(Debug, Clone, Copy, PartialEq, Eq, Structural)]
pub enum CodeAction {
    /// Create the file; it must not exist.
    Create,
    /// Append the body.
    Append,
    /// Prepend the body.
    Prepend,
    /// Replace the single occurrence of `old` with the body.
    Replace,
    /// Insert the body before the first occurrence of `anchor`.
    InsertBefore,
    /// Insert the body after the first occurrence of `anchor`.
    InsertAfter,
    /// Write the whole file.
    Full,
}

/// A code block of a node.
pub struct CodeBlock {
    /// Language of the body, such as `rust` or `sh`.
    pub lang: Option<String>,
    /// Target path, relative to the working directory.
    pub target: Option<String>,
    /// What to do with the target.
    pub action: CodeAction,
    /// The code.
    pub body: String,
    /// Text that `Replace` replaces.
    pub old: Option<String>,
    /// Text that the insertions are anchored on.
    pub anchor: Option<String>,
}

/// Level of detail at which a node is loaded.
#[derive(Debug, Clone, Copy, PartialEq, Eq, Structural)]
pub enum LoadMode {
    /// Type and summary only.
    Summary,
    /// Adds items, steps and dependencies.
    Operational,
    /// Adds execution fields.
    Executable,
    /// Everything.
    Full,
}

/// Part of a file to load into a context.
#[derive(Debug, PartialEq, Eq)]
pub enum FileRange {
    /// The whole file.
    Full,
    /// Lines `start..=end`, numbered from 1.
    Lines(u64, u64),
    /// The named function.
    Function(String),
}

/// A file to load into a context.
pub struct LoadFile {
    /// Path relative to the working directory.
    pub path: String,
    /// Which part of it.
    pub range: FileRange,
}

/// Explicit context specification of a node.
pub struct AgentContext {
    /// Nodes to include at operational level.
    pub load_nodes: Option<Vec<String>>,
    /// Files to include.
    pub load_files: Option<Vec<LoadFile>>,
    /// Text placed first in the prompt.
    pub system_hint: Option<String>,
    /// Token budget of the prompt.
    pub max_tokens: Option<u32>,
    /// Memory topics to include.
    pub load_memory: Option<Vec<String>>,
}

/// A parsed AGM file.
pub struct AgmFile {
    /// The header.
    pub header: Header,
    /// The nodes, in file order.
    pub nodes: Vec<Node>,
}

} // verus!
