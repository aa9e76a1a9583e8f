//! Telling JSON lines from logfmt lines.
use vstd::prelude::*;

use crate::parser::LineFormat;
use crate::text::{self, chars_of, skip_white};

verus! {

/// A text that opens a JSON object or array.
pub open spec fn opens_json(s: Seq<char>) -> bool {
    s.len() > 0 && (s[0] == '{' || s[0] == '[')
}

/// The format of a line: JSON when, past its leading white space, it opens
/// with `{` or `[`; logfmt otherwise.
pub open spec fn line_format(line: Seq<char>) -> LineFormat {
    if opens_json(text::trim_start(line)) {
        LineFormat::Json
    } else {
        LineFormat::Logfmt
    }
}

/// Guesses the format of a line from its first character past white space.
pub fn sniff(line: &str) -> (r: LineFormat)
    ensures
        r == line_format(line@),
{
    let cs = chars_of(line);
    let i = skip_white(cs.as_slice());
    if i < cs.len() && (cs[i] == '{' || cs[i] == '[') {
        LineFormat::Json
    } else {
        LineFormat::Logfmt
    }
}

} // verus!
