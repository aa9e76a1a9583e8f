//! Reading log lines into records: JSON lines and logfmt lines.
pub mod detect;
pub mod json;
pub mod logfmt;

pub use detect::sniff;
pub use json::parse_json_line;
pub use logfmt::parse_logfmt_line;

use vstd::prelude::*;

use crate::error::RustydiffError;
use crate::record::{FloatValue, Record, RecordModel};
use crate::text::trimmed;

verus! {

/// The format of a log line.
#[derive(Debug, Clone, Copy, PartialEq, Eq, Structural)]
pub enum LineFormat {
    Json,
    Logfmt,
}

/// `read` may make a line of the given format into the outcome.
pub open spec fn parsed_by<F: Fn(&str) -> Option<FloatValue>>(
    read: F,
    line: Seq<char>,
    format: LineFormat,
    outcome: Result<RecordModel, Option<Seq<char>>>,
) -> bool {
    match format {
        LineFormat::Json => json::json_parsed_by(read, line, outcome),
        LineFormat::Logfmt => logfmt::logfmt_parsed_by(read, line, outcome),
    }
}

/// With a float reader that gives the same reading for the same text, reading
/// a line in a format has one outcome: the one that the parser of that format
/// gives.
pub proof fn lemma_parse_auto_agrees<F: Fn(&str) -> Option<FloatValue>>(
    read: F,
    line: Seq<char>,
    format: LineFormat,
    a: Result<RecordModel, Option<Seq<char>>>,
    b: Result<RecordModel, Option<Seq<char>>>,
)
    requires
        crate::record::reads_floats_alike(read),
        parsed_by(read, line, format, a),
        match format {
            LineFormat::Json => json::json_parsed_by(read, line, b),
            LineFormat::Logfmt => logfmt::logfmt_parsed_by(read, line, b),
        },
    ensures
        a == b,
{
    match format {
        LineFormat::Json => json::lemma_json_outcome_unique(read, line, a, b),
        LineFormat::Logfmt => logfmt::lemma_logfmt_outcome_unique(read, line, a, b),
    }
}

/// Reads a line in the given format; floats are read with `read_float`.
pub fn parse_auto<F: Fn(&str) -> Option<FloatValue>>(
    line: &str,
    format: LineFormat,
    read_float: &F,
) -> (r: Result<Record, RustydiffError>)
    requires
        forall|s: &str| read_float.requires((s,)),
    ensures
        parsed_by(*read_float, line@, format, json::parse_outcome(r)),
{
    match format {
        LineFormat::Json => parse_json_line(line, read_float),
        LineFormat::Logfmt => parse_logfmt_line(line, read_float),
    }
}

/// Reads a line, trimmed of white space at both ends, in the format that it
/// looks to be in; a blank line, or one that does not parse, gives nothing.
pub fn parse_line_skipping_bad<F: Fn(&str) -> Option<FloatValue>>(line: &str, read_float: &F) -> (r:
    Option<Record>)
    requires
        forall|s: &str| read_float.requires((s,)),
    ensures
        crate::text::trim(line@).len() == 0 ==> r is None,
        crate::text::trim(line@).len() > 0 ==> exists|outcome: Result<RecordModel, Option<Seq<char>>>|
            {
                &&& #[trigger] parsed_by(
                    *read_float,
                    crate::text::trim(line@),
                    detect::line_format(crate::text::trim(line@)),
                    outcome,
                )
                &&& match r {
                    Some(rec) => outcome == Ok::<RecordModel, Option<Seq<char>>>(rec@),
                    None => outcome is Err,
                }
            },
{
    let t = trimmed(line);
    if t.as_str().is_empty() {
        return None;
    }
    let format = sniff(t.as_str());
    let parsed = parse_auto(t.as_str(), format, read_float);
    assert(parsed_by(*read_float, t@, format, json::parse_outcome(parsed)));
    match parsed {
        Ok(rec) => Some(rec),
        Err(_) => None,
    }
}

} // verus!
