//! Decisions of the command-line commands: argument enums, their mapping to
//! library types, and exit codes.

pub mod context;
pub mod corpus;
pub mod export;
pub mod ingest;
pub mod lint;
pub mod mem_cmd;
pub mod llm_bench;
pub mod normalize;
pub mod repair;
pub mod retry;
pub mod run;
pub mod schema_cmd;
pub mod status;
pub mod verify_cmd;
