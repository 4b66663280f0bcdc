//! Export formats of the `state export` and `mem export` commands.

use vstd::prelude::*;

use crate::keyed::str_eq;

verus! {

/// Export format.
#[derive(Debug, Clone, Copy, PartialEq, Eq, Structural)]
pub enum ExportFormat {
    /// JSON.
    Json,
    /// The AGM sidecar text format.
    Agm,
    /// SQL, which is not implemented.
    Sql,
}

/// The export format that a `--format` value names, if any.
pub open spec fn export_format_spec(name: Seq<char>) -> Option<ExportFormat> {
    if name == "json"@ {
        Some(ExportFormat::Json)
    } else if name == "agm"@ {
        Some(ExportFormat::Agm)
    } else if name == "sql"@ {
        Some(ExportFormat::Sql)
    } else {
        None
    }
}

/// The export format that a `--format` value names, if any.
pub fn parse_export_format(name: &str) -> (r: Option<ExportFormat>)
    ensures
        r == export_format_spec(name@),
{
    if str_eq(name, "json") {
        Some(ExportFormat::Json)
    } else if str_eq(name, "agm") {
        Some(ExportFormat::Agm)
    } else if str_eq(name, "sql") {
        Some(ExportFormat::Sql)
    } else {
        None
    }
}

/// Whether exporting in the named format is supported: only `json` and
/// `agm` are.
pub fn export_format_supported(name: &str) -> (r: bool)
    ensures
        r == (name@ == "json"@ || name@ == "agm"@),
{
    match parse_export_format(name) {
        Some(ExportFormat::Json) | Some(ExportFormat::Agm) => true,
        _ => {
            proof {
                reveal_strlit("json");
                reveal_strlit("agm");
                reveal_strlit("sql");
            }
            false
        },
    }
}

} // verus!
