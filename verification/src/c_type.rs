//! The run configuration and the structured record type.

use vstd::prelude::*;

verus! {

/// The pre-validated configuration of one run, as an external command-line
/// parser hands it over.
pub struct Args {
    pub path: String,
    pub filter: Option<String>,
    pub regex: Option<String>,
    pub list_services: bool,
    pub dedup: bool,
    pub json: bool,
    pub output: Option<String>,
    pub summary: bool,
}

/// A structured record extracted from one line by the record grammar.
#[derive(Clone)]
pub struct LogRecord {
    pub timestamp: String,
    pub service: String,
    pub message: String,
}

/// The mathematical shape of a `LogRecord`: its three fields as character
/// sequences.
pub struct LogRecordView {
    pub timestamp: Seq<char>,
    pub service: Seq<char>,
    pub message: Seq<char>,
}

impl View for LogRecord {
    type V = LogRecordView;

    open spec fn view(&self) -> LogRecordView {
        LogRecordView { timestamp: self.timestamp@, service: self.service@, message: self.message@ }
    }
}

/// The one fatal configuration error: a regex pattern that does not compile.
#[derive(Clone, Copy, Debug, PartialEq, Eq, Structural)]
pub enum FilterError {
    InvalidRegex,
}

/// The view of an optional string: its characters, when present.
pub open spec fn opt_str_view(o: Option<String>) -> Option<Seq<char>> {
    match o {
        Some(s) => Some(s@),
        None => None,
    }
}

} // verus!
