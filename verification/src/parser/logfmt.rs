//! Records from logfmt lines: `key=value` pairs, values bare or in double quotes.
use vstd::prelude::*;

use crate::error::RustydiffError;
use crate::keys::{compare_text, KeyOrder};
use crate::parser::json::{as_parse_outcome, parse_outcome, readings_view};
use crate::record::{self, read_float_text, text_of, FieldMap, FloatValue, Record, Value};
use crate::text::{self, chars_of, parse_i64, replace_chars, text_from_chars, trimmed};

verus! {

/// The pattern of one `key=value` pair: a word, `=`, then a double-quoted
/// text (with backslash escapes) or a run of non-space characters.
pub open spec fn logfmt_pattern() -> Seq<char> {
    "(\\w+)=(\"(?:\\\\.|[^\"\\\\])*\"|[^\\s]+)"@
}

/// What the `regex` crate gives for a pattern and a text: for each match,
/// left to right and not overlapping, the texts of capture groups 1 and 2;
/// or the text of the error for a pattern that does not compile.
pub uninterp spec fn regex_captures(pattern: Seq<char>, text: Seq<char>) -> Result<
    Seq<(Option<Seq<char>>, Option<Seq<char>>)>,
    Seq<char>,
>;

pub type Captures = Vec<(Option<String>, Option<String>)>;

pub open spec fn opt_text(o: Option<String>) -> Option<Seq<char>> {
    match o {
        Some(s) => Some(s@),
        None => None,
    }
}

pub open spec fn captures_view(v: Seq<(Option<String>, Option<String>)>) -> Seq<
    (Option<Seq<char>>, Option<Seq<char>>),
> {
    v.map_values(|c: (Option<String>, Option<String>)| (opt_text(c.0), opt_text(c.1)))
}

pub open spec fn captures_result(r: Result<Captures, String>) -> Result<
    Seq<(Option<Seq<char>>, Option<Seq<char>>)>,
    Seq<char>,
> {
    match r {
        Ok(v) => Ok(captures_view(v@)),
        Err(e) => Err(e@),
    }
}

/// Compiles a pattern with `regex::Regex::new` and collects, for each match
/// that `captures_iter` finds in the text, capture groups 1 and 2. Its
/// contract names the outcome and says no more.
#[verifier::external_body]
fn capture_pairs(pattern: &str, text: &str) -> (r: Result<Captures, String>)
    ensures
        captures_result(r) == regex_captures(pattern@, text@),
{
    match regex::Regex::new(pattern) {
        Ok(re) => Ok(re.captures_iter(text).map(|c| (
            c.get(1).map(|m| m.as_str().to_string()),
            c.get(2).map(|m| m.as_str().to_string()),
        )).collect()),
        Err(e) => Err(e.to_string()),
    }
}

/// A value in double quotes: at least two characters, the first and last `"`.
pub open spec fn is_quoted(raw: Seq<char>) -> bool {
    raw.len() >= 2 && raw[0] == '"' && raw.last() == '"'
}

/// The text of a quoted value: `\"` made `"`, then `\\` made `\`.
pub open spec fn unescaped(s: Seq<char>) -> Seq<char> {
    text::replaced(text::replaced(s, seq!['\\', '"'], seq!['"']), seq!['\\', '\\'], seq!['\\'])
}

/// Whether a value's text is read as a float: it is no boolean, `null`,
/// quoted text or integer.
pub open spec fn needs_float(raw: Seq<char>) -> bool {
    &&& raw != "true"@
    &&& raw != "false"@
    &&& raw != "null"@
    &&& !is_quoted(raw)
    &&& text::parse_i64_text(raw) is None
}

/// The value of a logfmt value's text, given its float reading: `true`,
/// `false`, `null`, a quoted text, an `i64`, a float, or else the text itself.
pub open spec fn logfmt_value(raw: Seq<char>, reading: Option<(u64, Seq<char>)>) -> record::ValueModel {
    if raw == "true"@ {
        record::ValueModel::Bool(true)
    } else if raw == "false"@ {
        record::ValueModel::Bool(false)
    } else if raw == "null"@ {
        record::ValueModel::Null
    } else if is_quoted(raw) {
        record::ValueModel::Str(unescaped(raw.subrange(1, raw.len() - 1)))
    } else if text::parse_i64_text(raw) is Some {
        record::ValueModel::Int(text::parse_i64_text(raw)->0)
    } else {
        match reading {
            Some((bits, t)) => record::ValueModel::Float(bits, t),
            None => record::ValueModel::Str(raw),
        }
    }
}

/// The fields of the matches, in order: each match with both groups sets
/// its key to the value of its text; a later key replaces an earlier one.
pub open spec fn logfmt_fields(
    caps: Seq<(Option<Seq<char>>, Option<Seq<char>>)>,
    readings: Seq<Option<(u64, Seq<char>)>>,
) -> Map<Seq<char>, record::ValueModel>
    decreases caps.len(),
{
    if caps.len() == 0 {
        Map::empty()
    } else {
        let m = logfmt_fields(caps.drop_last(), readings);
        match caps.last() {
            (Some(k), Some(v)) => m.insert(k, logfmt_value(v, readings[caps.len() - 1])),
            _ => m,
        }
    }
}

/// The record of a logfmt line, given its matches and their float readings:
/// an error when no pair was found in a line that is not blank.
pub open spec fn logfmt_record(
    line: Seq<char>,
    caps: Result<Seq<(Option<Seq<char>>, Option<Seq<char>>)>, Seq<char>>,
    readings: Seq<Option<(u64, Seq<char>)>>,
) -> Result<record::RecordModel, Seq<char>> {
    match caps {
        Err(e) => Err(e),
        Ok(cs) => {
            let fields = logfmt_fields(cs, readings);
            if fields.dom() == Set::<Seq<char>>::empty() && text::trim(line).len() > 0 {
                Err("logfmt line has no key=value pairs"@)
            } else {
                Ok(record::RecordModel { fields, raw: line })
            }
        },
    }
}

/// Float readings fit for the matches: one per match, and for each value
/// read as a float one that `read` may give for its text.
pub open spec fn logfmt_readings_by<F: Fn(&str) -> Option<FloatValue>>(
    read: F,
    caps: Seq<(Option<Seq<char>>, Option<Seq<char>>)>,
    readings: Seq<Option<(u64, Seq<char>)>>,
) -> bool {
    &&& readings.len() == caps.len()
    &&& forall|i: int| 0 <= i < caps.len() ==> capture_reading_by(read, #[trigger] caps[i], readings[i])
}

pub open spec fn capture_reading_by<F: Fn(&str) -> Option<FloatValue>>(
    read: F,
    cap: (Option<Seq<char>>, Option<Seq<char>>),
    reading: Option<(u64, Seq<char>)>,
) -> bool {
    match cap {
        (Some(_), Some(v)) => needs_float(v) ==> record::float_read_by(read, v, reading),
        _ => true,
    }
}

/// `read` may make a logfmt line into the outcome.
pub open spec fn logfmt_parsed_by<F: Fn(&str) -> Option<FloatValue>>(
    read: F,
    line: Seq<char>,
    outcome: Result<record::RecordModel, Option<Seq<char>>>,
) -> bool {
    exists|readings: Seq<Option<(u64, Seq<char>)>>|
        {
            &&& (regex_captures(logfmt_pattern(), line) matches Ok(cs) ==> logfmt_readings_by(
                read,
                cs,
                readings,
            ))
            &&& outcome == as_parse_outcome(
                #[trigger] logfmt_record(line, regex_captures(logfmt_pattern(), line), readings),
            )
        }
}

/// An integer written as its decimal text is read back from a logfmt line as
/// that integer, whatever float reading is at hand.
pub proof fn lemma_logfmt_int_round_trip(i: i64, reading: Option<(u64, Seq<char>)>)
    ensures
        logfmt_value(text::int_text(i as int), reading) == record::ValueModel::Int(i),
{
    let t = text::int_text(i as int);
    text::lemma_int_text_parses(i);
    reveal_strlit("true");
    reveal_strlit("false");
    reveal_strlit("null");
    assert(t[0] == '-' || text::is_digit(t[0])) by {
        if i >= 0 {
            text::lemma_nat_text_digits(i as nat);
        }
    }
    assert(t != "true"@ && t != "false"@ && t != "null"@) by {
        assert("true"@[0] == 't' && "false"@[0] == 'f' && "null"@[0] == 'n');
    }
    assert(!is_quoted(t));
}

/// A match whose value is read as a float.
pub open spec fn capture_needs_float(cap: (Option<Seq<char>>, Option<Seq<char>>)) -> bool {
    match cap {
        (Some(_), Some(v)) => needs_float(v),
        _ => false,
    }
}

proof fn lemma_logfmt_fields_same_readings(
    caps: Seq<(Option<Seq<char>>, Option<Seq<char>>)>,
    a: Seq<Option<(u64, Seq<char>)>>,
    b: Seq<Option<(u64, Seq<char>)>>,
)
    requires
        forall|i: int|
            0 <= i < caps.len() && capture_needs_float(#[trigger] caps[i])
                ==> a[i] == b[i],
    ensures
        logfmt_fields(caps, a) == logfmt_fields(caps, b),
    decreases caps.len(),
{
    if caps.len() > 0 {
        let front = caps.drop_last();
        assert forall|i: int|
            0 <= i < front.len() && capture_needs_float(#[trigger] front[i]) implies a[i] == b[i] by {
            assert(front[i] == caps[i]);
        }
        lemma_logfmt_fields_same_readings(front, a, b);
        assert(caps.last() == caps[caps.len() - 1]);
    }
}

/// With a float reader that gives the same reading for the same text, a
/// logfmt line has one outcome.
pub proof fn lemma_logfmt_outcome_unique<F: Fn(&str) -> Option<FloatValue>>(
    read: F,
    line: Seq<char>,
    a: Result<record::RecordModel, Option<Seq<char>>>,
    b: Result<record::RecordModel, Option<Seq<char>>>,
)
    requires
        record::reads_floats_alike(read),
        logfmt_parsed_by(read, line, a),
        logfmt_parsed_by(read, line, b),
    ensures
        a == b,
{
    let caps = regex_captures(logfmt_pattern(), line);
    let ra = choose|readings: Seq<Option<(u64, Seq<char>)>>|
        {
            &&& (caps matches Ok(cs) ==> logfmt_readings_by(read, cs, readings))
            &&& a == as_parse_outcome(#[trigger] logfmt_record(line, caps, readings))
        };
    let rb = choose|readings: Seq<Option<(u64, Seq<char>)>>|
        {
            &&& (caps matches Ok(cs) ==> logfmt_readings_by(read, cs, readings))
            &&& b == as_parse_outcome(#[trigger] logfmt_record(line, caps, readings))
        };
    if let Ok(cs) = caps {
        assert forall|i: int|
            0 <= i < cs.len() && capture_needs_float(#[trigger] cs[i])
                implies ra[i] == rb[i] by {
            assert(capture_reading_by(read, cs[i], ra[i]));
            assert(capture_reading_by(read, cs[i], rb[i]));
            if let (Some(_), Some(v)) = cs[i] {
                record::lemma_float_reading_unique(read, v, ra[i], rb[i]);
            }
        }
        lemma_logfmt_fields_same_readings(cs, ra, rb);
    }
}

fn same_text(a: &str, b: &str) -> (r: bool)
    ensures
        r == (a@ == b@),
{
    match compare_text(a, b) {
        KeyOrder::Same => true,
        _ => false,
    }
}

/// The value of a logfmt value's text, given its float reading.
pub fn logfmt_value_of(raw: &str, reading: &Option<FloatValue>) -> (r: Value)
    ensures
        r@ == logfmt_value(raw@, record::float_view(*reading)),
{
    if same_text(raw, "true") {
        return Value::Bool(true);
    }
    if same_text(raw, "false") {
        return Value::Bool(false);
    }
    if same_text(raw, "null") {
        return Value::Null;
    }
    let cs = chars_of(raw);
    let n = cs.len();
    if n >= 2 && cs[0] == '"' && cs[n - 1] == '"' {
        let mut inner: Vec<char> = Vec::new();
        let mut i: usize = 1;
        while i < n - 1
            invariant
                1 <= i <= n - 1,
                n == cs@.len(),
                inner@ =~= cs@.subrange(1, i as int),
            decreases n - 1 - i,
        {
            inner.push(cs[i]);
            i = i + 1;
        }
        let mut quote_escape: Vec<char> = Vec::new();
        quote_escape.push('\\');
        quote_escape.push('"');
        let mut quote: Vec<char> = Vec::new();
        quote.push('"');
        let mut slash_escape: Vec<char> = Vec::new();
        slash_escape.push('\\');
        slash_escape.push('\\');
        let mut slash: Vec<char> = Vec::new();
        slash.push('\\');
        assert(quote_escape@ =~= seq!['\\', '"']);
        assert(quote@ =~= seq!['"']);
        assert(slash_escape@ =~= seq!['\\', '\\']);
        assert(slash@ =~= seq!['\\']);
        let once = replace_chars(inner.as_slice(), quote_escape.as_slice(), quote.as_slice());
        let twice = replace_chars(once.as_slice(), slash_escape.as_slice(), slash.as_slice());
        return Value::Str(text_from_chars(twice.as_slice()));
    }
    if let Some(i) = parse_i64(raw) {
        return Value::Int(i);
    }
    match reading {
        Some(f) => Value::Float(f.clone()),
        None => Value::Str(text_of(raw)),
    }
}

/// Whether a value's text is read as a float.
fn wants_float(raw: &str) -> (r: bool)
    ensures
        r == needs_float(raw@),
{
    if same_text(raw, "true") || same_text(raw, "false") || same_text(raw, "null") {
        return false;
    }
    let cs = chars_of(raw);
    let n = cs.len();
    if n >= 2 && cs[0] == '"' && cs[n - 1] == '"' {
        return false;
    }
    parse_i64(raw).is_none()
}

/// The value of a logfmt value's text; a text that is read as a float is
/// read with `read_float`.
pub fn parse_logfmt_value<F: Fn(&str) -> Option<FloatValue>>(raw: &str, read_float: &F) -> (r:
    Value)
    requires
        forall|s: &str| read_float.requires((s,)),
    ensures
        !needs_float(raw@) ==> r@ == logfmt_value(raw@, None),
        needs_float(raw@) ==> exists|reading: Option<(u64, Seq<char>)>|
            record::float_read_by(*read_float, raw@, reading) && r@ == #[trigger] logfmt_value(
                raw@,
                reading,
            ),
{
    if wants_float(raw) {
        let reading = read_float_text(read_float, raw);
        let r = logfmt_value_of(raw, &reading);
        assert(r@ == logfmt_value(raw@, record::float_view(reading)));
        r
    } else {
        logfmt_value_of(raw, &None)
    }
}

/// The record of a logfmt line, given its matches and their float readings.
pub fn logfmt_fields_to_record(
    line: &str,
    caps: &Captures,
    readings: &Vec<Option<FloatValue>>,
) -> (r: Result<Record, RustydiffError>)
    requires
        readings@.len() == caps@.len(),
    ensures
        parse_outcome(r) == as_parse_outcome(
            logfmt_record(line@, Ok(captures_view(caps@)), readings_view(readings@)),
        ),
{
    let ghost cs = captures_view(caps@);
    let ghost rs = readings_view(readings@);
    let mut fields = FieldMap::new();
    let mut i: usize = 0;
    assert(cs.take(0) =~= Seq::<(Option<Seq<char>>, Option<Seq<char>>)>::empty());
    while i < caps.len()
        invariant
            0 <= i <= caps@.len(),
            readings@.len() == caps@.len(),
            cs == captures_view(caps@),
            rs == readings_view(readings@),
            fields@ == logfmt_fields(cs.take(i as int), rs),
        decreases caps@.len() - i,
    {
        let ghost prefix = cs.take(i + 1);
        assert(prefix.drop_last() =~= cs.take(i as int));
        assert(prefix.last() == cs[i as int]);
        assert(rs[i as int] == record::float_view(readings@[i as int]));
        match (&caps[i].0, &caps[i].1) {
            (Some(k), Some(v)) => {
                let value = logfmt_value_of(v.as_str(), &readings[i]);
                fields.insert(k.clone(), value);
            },
            _ => {},
        }
        i = i + 1;
    }
    assert(cs.take(i as int) =~= cs);
    if fields.is_empty() {
        let t = trimmed(line);
        if !t.as_str().is_empty() {
            return Err(RustydiffError::Parse(text_of("logfmt line has no key=value pairs")));
        }
    }
    Ok(Record::new(fields, text_of(line)))
}

/// Reads a logfmt line into a record: every `key=value` pair found sets a
/// field; quoted values lose their quotes and escapes; values are booleans,
/// `null`, integers, floats (read with `read_float`) or texts. A line that
/// is not blank must have a pair. The record's raw text is the line.
pub fn parse_logfmt_line<F: Fn(&str) -> Option<FloatValue>>(line: &str, read_float: &F) -> (r:
    Result<Record, RustydiffError>)
    requires
        forall|s: &str| read_float.requires((s,)),
    ensures
        logfmt_parsed_by(*read_float, line@, parse_outcome(r)),
{
    let pattern = "(\\w+)=(\"(?:\\\\.|[^\"\\\\])*\"|[^\\s]+)";
    assert(pattern@ == logfmt_pattern());
    match capture_pairs(pattern, line) {
        Err(e) => {
            let r = Err(RustydiffError::Parse(e));
            assert(as_parse_outcome(
                logfmt_record(line@, regex_captures(logfmt_pattern(), line@), Seq::empty()),
            ) == parse_outcome(r));
            r
        },
        Ok(caps) => {
            let ghost cs = captures_view(caps@);
            let mut readings: Vec<Option<FloatValue>> = Vec::new();
            let mut i: usize = 0;
            while i < caps.len()
                invariant
                    0 <= i <= caps@.len(),
                    readings@.len() == i,
                    cs == captures_view(caps@),
                    forall|s: &str| read_float.requires((s,)),
                    forall|j: int|
                        0 <= j < i ==> capture_reading_by(
                            *read_float,
                            #[trigger] cs[j],
                            readings_view(readings@)[j],
                        ),
                decreases caps@.len() - i,
            {
                let reading = match &caps[i] {
                    (Some(_), Some(v)) => {
                        if wants_float(v.as_str()) {
                            read_float_text(read_float, v.as_str())
                        } else {
                            None
                        }
                    },
                    _ => None,
                };
                readings.push(reading);
                assert(readings_view(readings@)[i as int] == record::float_view(reading));
                i = i + 1;
            }
            let ghost rs = readings_view(readings@);
            assert(logfmt_readings_by(*read_float, cs, rs));
            let r = logfmt_fields_to_record(line, &caps, &readings);
            assert(as_parse_outcome(
                logfmt_record(line@, regex_captures(logfmt_pattern(), line@), rs),
            ) == parse_outcome(r));
            r
        },
    }
}

} // verus!
