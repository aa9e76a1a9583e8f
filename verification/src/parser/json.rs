//! Records from JSON lines: a line must hold one JSON object whose members
//! are scalars.
use vstd::prelude::*;

use crate::error::RustydiffError;
use crate::text;
use crate::record::{self, read_float_text, text_of, FieldMap, FloatValue, Record, Value};

verus! {

/// A member of a JSON object, by what the record needs of it: a number is
/// held by its value when that is an `i64`, and by its JSON text.
#[derive(Debug)]
pub enum JsonMember {
    Null,
    Bool(bool),
    Number(Option<i64>, String),
    Text(String),
    Array,
    Object,
}

/// A JSON line: an object with its members in the order read, or any other
/// JSON value.
#[derive(Debug)]
pub enum JsonLine {
    Object(Vec<(String, JsonMember)>),
    NotObject,
}

pub enum JsonMemberModel {
    Null,
    Bool(bool),
    Number(Option<i64>, Seq<char>),
    Text(Seq<char>),
    Array,
    Object,
}

pub enum JsonLineModel {
    Object(Seq<(Seq<char>, JsonMemberModel)>),
    NotObject,
}

impl View for JsonMember {
    type V = JsonMemberModel;

    open spec fn view(&self) -> JsonMemberModel {
        match self {
            JsonMember::Null => JsonMemberModel::Null,
            JsonMember::Bool(b) => JsonMemberModel::Bool(*b),
            JsonMember::Number(i, t) => JsonMemberModel::Number(*i, t@),
            JsonMember::Text(s) => JsonMemberModel::Text(s@),
            JsonMember::Array => JsonMemberModel::Array,
            JsonMember::Object => JsonMemberModel::Object,
        }
    }
}

pub open spec fn members_view(ms: Seq<(String, JsonMember)>) -> Seq<(Seq<char>, JsonMemberModel)> {
    ms.map_values(|m: (String, JsonMember)| (m.0@, m.1@))
}

impl View for JsonLine {
    type V = JsonLineModel;

    open spec fn view(&self) -> JsonLineModel {
        match self {
            JsonLine::Object(ms) => JsonLineModel::Object(members_view(ms@)),
            JsonLine::NotObject => JsonLineModel::NotObject,
        }
    }
}

/// What serde_json reads from a line: a JSON object's members (their keys and
/// what they hold), any other JSON value, or the text of the error for a line
/// that is not JSON.
pub uninterp spec fn json_reading(line: Seq<char>) -> Result<JsonLineModel, Seq<char>>;

/// A member as the line writes it: in a line without a backslash (so with
/// no escapes), its name, and a text value, stand in the line between double
/// quotes just as they are.
pub open spec fn member_as_written(m: (Seq<char>, JsonMemberModel), line: Seq<char>) -> bool {
    &&& text::occurs_in(text::quoted(m.0), line)
    &&& (m.1 matches JsonMemberModel::Text(s) ==> text::occurs_in(text::quoted(s), line))
}

/// What is read of a line without a backslash holds its members as written.
pub open spec fn members_as_written(doc: Result<JsonLineModel, Seq<char>>, line: Seq<char>) -> bool {
    match doc {
        Ok(JsonLineModel::Object(ms)) => !line.contains('\\') ==> forall|i: int|
            0 <= i < ms.len() ==> member_as_written(#[trigger] ms[i], line),
        _ => true,
    }
}

/// The fields of a record as a line without a backslash writes them: each
/// name, and each text value, stands in the line between double quotes.
pub open spec fn fields_as_written(fields: Map<Seq<char>, record::ValueModel>, line: Seq<char>) -> bool {
    forall|k: Seq<char>|
        #[trigger] fields.contains_key(k) ==> {
            &&& text::occurs_in(text::quoted(k), line)
            &&& (fields[k] matches record::ValueModel::Str(s) ==> text::occurs_in(
                text::quoted(s),
                line,
            ))
        }
}

proof fn lemma_json_fields_as_written(
    ms: Seq<(Seq<char>, JsonMemberModel)>,
    readings: Seq<Option<(u64, Seq<char>)>>,
    line: Seq<char>,
)
    requires
        forall|i: int| 0 <= i < ms.len() ==> member_as_written(#[trigger] ms[i], line),
        json_fields(ms, readings) is Ok,
    ensures
        fields_as_written(json_fields(ms, readings)->Ok_0, line),
    decreases ms.len(),
{
    if ms.len() > 0 {
        let front = ms.drop_last();
        assert forall|i: int| 0 <= i < front.len() implies member_as_written(#[trigger] front[i], line) by {
            assert(front[i] == ms[i]);
        }
        lemma_json_fields_as_written(front, readings, line);
        assert(member_as_written(ms[ms.len() - 1], line));
    }
}

pub open spec fn json_line_result(r: Result<JsonLine, String>) -> Result<JsonLineModel, Seq<char>> {
    match r {
        Ok(l) => Ok(l@),
        Err(e) => Err(e@),
    }
}

/// Reads a line as a JSON value with `serde_json::from_str`, and takes of it
/// what a record needs. Its contract names the outcome and says no more.
#[verifier::external_body]
fn read_json(line: &str) -> (r: Result<JsonLine, String>)
    ensures
        json_line_result(r) == json_reading(line@),
        members_as_written(json_line_result(r), line@),
{
    match serde_json::from_str::<serde_json::Value>(line) {
        Err(e) => Err(e.to_string()),
        Ok(serde_json::Value::Object(map)) => Ok(JsonLine::Object(map.into_iter().map(|(k, v)| (k, match v {
            serde_json::Value::Null => JsonMember::Null,
            serde_json::Value::Bool(b) => JsonMember::Bool(b),
            serde_json::Value::Number(n) => JsonMember::Number(n.as_i64(), n.to_string()),
            serde_json::Value::String(s) => JsonMember::Text(s),
            serde_json::Value::Array(_) => JsonMember::Array,
            serde_json::Value::Object(_) => JsonMember::Object,
        })).collect())),
        Ok(_) => Ok(JsonLine::NotObject),
    }
}

/// Whether a member needs a float reading: a number that is not an `i64`.
pub open spec fn needs_float(m: JsonMemberModel) -> bool {
    m matches JsonMemberModel::Number(None, _)
}

/// The value of a member, given the float reading of its text.
pub open spec fn member_value(m: JsonMemberModel, reading: Option<(u64, Seq<char>)>) -> Result<
    record::ValueModel,
    Seq<char>,
> {
    match m {
        JsonMemberModel::Null => Ok(record::ValueModel::Null),
        JsonMemberModel::Bool(b) => Ok(record::ValueModel::Bool(b)),
        JsonMemberModel::Number(Some(i), _) => Ok(record::ValueModel::Int(i)),
        JsonMemberModel::Number(None, _) => match reading {
            Some((bits, text)) => Ok(record::ValueModel::Float(bits, text)),
            None => Err("unsupported JSON number"@),
        },
        JsonMemberModel::Text(s) => Ok(record::ValueModel::Str(s)),
        JsonMemberModel::Array | JsonMemberModel::Object => Err(
            "nested JSON values are not supported in records"@,
        ),
    }
}

/// The fields of an object's members, in order, or the error of the first
/// member that is not a scalar field value.
pub open spec fn json_fields(
    ms: Seq<(Seq<char>, JsonMemberModel)>,
    readings: Seq<Option<(u64, Seq<char>)>>,
) -> Result<Map<Seq<char>, record::ValueModel>, Seq<char>>
    decreases ms.len(),
{
    if ms.len() == 0 {
        Ok(Map::empty())
    } else {
        match json_fields(ms.drop_last(), readings) {
            Err(e) => Err(e),
            Ok(m) => match member_value(ms.last().1, readings[ms.len() - 1]) {
                Ok(v) => Ok(m.insert(ms.last().0, v)),
                Err(e) => Err(e),
            },
        }
    }
}

/// The record of a JSON line, given what was read of it and the float readings
/// of its members, or the message of the parse error.
pub open spec fn json_record(
    line: Seq<char>,
    doc: Result<JsonLineModel, Seq<char>>,
    readings: Seq<Option<(u64, Seq<char>)>>,
) -> Result<record::RecordModel, Seq<char>> {
    match doc {
        Err(e) => Err("invalid JSON line: "@ + e),
        Ok(JsonLineModel::Object(ms)) => match json_fields(ms, readings) {
            Ok(fields) => Ok(record::RecordModel { fields, raw: line }),
            Err(e) => Err(e),
        },
        Ok(_) => Err("JSON line must be an object"@),
    }
}

/// A parse outcome, as the contracts speak of it: a record, or the message
/// of a parse error (an error of another kind has none).
pub open spec fn parse_outcome(r: Result<Record, RustydiffError>) -> Result<
    record::RecordModel,
    Option<Seq<char>>,
> {
    match r {
        Ok(rec) => Ok(rec@),
        Err(RustydiffError::Parse(m)) => Err(Some(m@)),
        Err(_) => Err(None),
    }
}

/// The outcome as a record or a parse message.
pub open spec fn as_parse_outcome(r: Result<record::RecordModel, Seq<char>>) -> Result<
    record::RecordModel,
    Option<Seq<char>>,
> {
    match r {
        Ok(rec) => Ok(rec),
        Err(m) => Err(Some(m)),
    }
}

/// Float readings fit for an object's members: one per member, and for each
/// number that is not an `i64` one that `read` may give for its text.
pub open spec fn json_readings_by<F: Fn(&str) -> Option<FloatValue>>(
    read: F,
    ms: Seq<(Seq<char>, JsonMemberModel)>,
    readings: Seq<Option<(u64, Seq<char>)>>,
) -> bool {
    &&& readings.len() == ms.len()
    &&& forall|i: int| 0 <= i < ms.len() ==> member_reading_by(read, #[trigger] ms[i].1, readings[i])
}

/// A float reading fit for a member: for a number that is not an `i64`, one
/// that `read` may give for its text; for any other member, any.
pub open spec fn member_reading_by<F: Fn(&str) -> Option<FloatValue>>(
    read: F,
    m: JsonMemberModel,
    reading: Option<(u64, Seq<char>)>,
) -> bool {
    match m {
        JsonMemberModel::Number(None, t) => record::float_read_by(read, t, reading),
        _ => true,
    }
}

/// `read` may make a JSON line into the outcome.
pub open spec fn json_parsed_by<F: Fn(&str) -> Option<FloatValue>>(
    read: F,
    line: Seq<char>,
    outcome: Result<record::RecordModel, Option<Seq<char>>>,
) -> bool {
    exists|readings: Seq<Option<(u64, Seq<char>)>>|
        {
            &&& (json_reading(line) matches Ok(JsonLineModel::Object(ms)) ==> json_readings_by(
                read,
                ms,
                readings,
            ))
            &&& outcome == as_parse_outcome(#[trigger] json_record(line, json_reading(line), readings))
        }
}

proof fn lemma_json_fields_same_readings(
    ms: Seq<(Seq<char>, JsonMemberModel)>,
    a: Seq<Option<(u64, Seq<char>)>>,
    b: Seq<Option<(u64, Seq<char>)>>,
)
    requires
        forall|i: int| 0 <= i < ms.len() && needs_float(#[trigger] ms[i].1) ==> a[i] == b[i],
    ensures
        json_fields(ms, a) == json_fields(ms, b),
    decreases ms.len(),
{
    if ms.len() > 0 {
        let front = ms.drop_last();
        assert forall|i: int| 0 <= i < front.len() && needs_float(#[trigger] front[i].1) implies a[i]
            == b[i] by {
            assert(front[i] == ms[i]);
        }
        lemma_json_fields_same_readings(front, a, b);
        assert(ms.last() == ms[ms.len() - 1]);
    }
}

/// With a float reader that gives the same reading for the same text, a JSON
/// line has one outcome.
pub proof fn lemma_json_outcome_unique<F: Fn(&str) -> Option<FloatValue>>(
    read: F,
    line: Seq<char>,
    a: Result<record::RecordModel, Option<Seq<char>>>,
    b: Result<record::RecordModel, Option<Seq<char>>>,
)
    requires
        record::reads_floats_alike(read),
        json_parsed_by(read, line, a),
        json_parsed_by(read, line, b),
    ensures
        a == b,
{
    let doc = json_reading(line);
    let ra = choose|readings: Seq<Option<(u64, Seq<char>)>>|
        {
            &&& (doc matches Ok(JsonLineModel::Object(ms)) ==> json_readings_by(read, ms, readings))
            &&& a == as_parse_outcome(#[trigger] json_record(line, doc, readings))
        };
    let rb = choose|readings: Seq<Option<(u64, Seq<char>)>>|
        {
            &&& (doc matches Ok(JsonLineModel::Object(ms)) ==> json_readings_by(read, ms, readings))
            &&& b == as_parse_outcome(#[trigger] json_record(line, doc, readings))
        };
    if let Ok(JsonLineModel::Object(ms)) = doc {
        assert forall|i: int| 0 <= i < ms.len() && needs_float(#[trigger] ms[i].1) implies ra[i]
            == rb[i] by {
            assert(member_reading_by(read, ms[i].1, ra[i]));
            assert(member_reading_by(read, ms[i].1, rb[i]));
            if let JsonMemberModel::Number(None, t) = ms[i].1 {
                record::lemma_float_reading_unique(read, t, ra[i], rb[i]);
            }
        }
        lemma_json_fields_same_readings(ms, ra, rb);
    }
}

/// The fields of an object's members, given the float readings of its members.
pub fn json_value_to_fields(
    members: &Vec<(String, JsonMember)>,
    readings: &Vec<Option<FloatValue>>,
) -> (r: Result<FieldMap, RustydiffError>)
    requires
        readings@.len() == members@.len(),
    ensures
        match r {
            Ok(f) => json_fields(members_view(members@), readings_view(readings@)) == Ok::<
                Map<Seq<char>, record::ValueModel>,
                Seq<char>,
            >(f@),
            Err(e) => e matches RustydiffError::Parse(m) && json_fields(
                members_view(members@),
                readings_view(readings@),
            ) == Err::<Map<Seq<char>, record::ValueModel>, Seq<char>>(m@),
        },
{
    let ghost ms = members_view(members@);
    let ghost rs = readings_view(readings@);
    let mut fields = FieldMap::new();
    let mut i: usize = 0;
    assert(ms.take(0) =~= Seq::<(Seq<char>, JsonMemberModel)>::empty());
    while i < members.len()
        invariant
            0 <= i <= members@.len(),
            readings@.len() == members@.len(),
            ms == members_view(members@),
            rs == readings_view(readings@),
            json_fields(ms.take(i as int), rs) == Ok::<
                Map<Seq<char>, record::ValueModel>,
                Seq<char>,
            >(fields@),
        decreases members@.len() - i,
    {
        let ghost prefix = ms.take(i + 1);
        assert(prefix.drop_last() =~= ms.take(i as int));
        assert(prefix.last() == ms[i as int]);
        assert(ms[i as int] == (members@[i as int].0@, members@[i as int].1@));
        let value = json_scalar_to_value(&members[i].1, &readings[i]);
        match value {
            Ok(v) => {
                fields.insert(members[i].0.clone(), v);
            },
            Err(m) => {
                proof {
                    lemma_json_error_stays(ms, rs, i + 1);
                }
                return Err(RustydiffError::Parse(m));
            },
        }
        i = i + 1;
    }
    assert(ms.take(i as int) =~= ms);
    Ok(fields)
}

pub open spec fn readings_view(rs: Seq<Option<FloatValue>>) -> Seq<Option<(u64, Seq<char>)>> {
    rs.map_values(|r: Option<FloatValue>| record::float_view(r))
}

proof fn lemma_json_error_stays(
    ms: Seq<(Seq<char>, JsonMemberModel)>,
    rs: Seq<Option<(u64, Seq<char>)>>,
    j: int,
)
    requires
        0 <= j <= ms.len(),
        json_fields(ms.take(j), rs) is Err,
    ensures
        json_fields(ms, rs) == json_fields(ms.take(j), rs),
    decreases ms.len() - j,
{
    if j < ms.len() {
        assert(ms.take(j + 1).drop_last() =~= ms.take(j));
        lemma_json_error_stays(ms, rs, j + 1);
    } else {
        assert(ms.take(j) =~= ms);
    }
}

/// The value of a member, given the float reading of its text.
fn json_scalar_to_value(member: &JsonMember, reading: &Option<FloatValue>) -> (r: Result<
    Value,
    String,
>)
    ensures
        match r {
            Ok(v) => member_value(member@, record::float_view(*reading)) == Ok::<
                record::ValueModel,
                Seq<char>,
            >(v@),
            Err(e) => member_value(member@, record::float_view(*reading)) == Err::<
                record::ValueModel,
                Seq<char>,
            >(e@),
        },
{
    match member {
        JsonMember::Null => Ok(Value::Null),
        JsonMember::Bool(b) => Ok(Value::Bool(*b)),
        JsonMember::Number(Some(i), _) => Ok(Value::Int(*i)),
        JsonMember::Number(None, _) => match reading {
            Some(f) => Ok(Value::Float(f.clone())),
            None => Err(text_of("unsupported JSON number")),
        },
        JsonMember::Text(s) => Ok(Value::Str(s.clone())),
        JsonMember::Array | JsonMember::Object => Err(
            text_of("nested JSON values are not supported in records"),
        ),
    }
}

/// Reads a JSON line into a record: the line must be a JSON object whose
/// members are null, booleans, numbers or texts; numbers that are not `i64`
/// are read as floats with `read_float`. The record's raw text is the line.
pub fn parse_json_line<F: Fn(&str) -> Option<FloatValue>>(line: &str, read_float: &F) -> (r: Result<
    Record,
    RustydiffError,
>)
    requires
        forall|s: &str| read_float.requires((s,)),
    ensures
        json_parsed_by(*read_float, line@, parse_outcome(r)),
        r matches Ok(rec) ==> (!line@.contains('\\') ==> fields_as_written(rec@.fields, line@)),
{
    let raw = text_of(line);
    let doc = read_json(line);
    match doc {
        Err(e) => {
            let mut m = text_of("invalid JSON line: ");
            crate::text::push_text(&mut m, e.as_str());
            let r = Err(RustydiffError::Parse(m));
            assert(as_parse_outcome(json_record(line@, json_reading(line@), Seq::empty()))
                == parse_outcome(r));
            r
        },
        Ok(JsonLine::NotObject) => {
            let r = Err(RustydiffError::Parse(text_of("JSON line must be an object")));
            assert(as_parse_outcome(json_record(line@, json_reading(line@), Seq::empty()))
                == parse_outcome(r));
            r
        },
        Ok(JsonLine::Object(members)) => {
            let ghost ms = members_view(members@);
            let mut readings: Vec<Option<FloatValue>> = Vec::new();
            let mut i: usize = 0;
            while i < members.len()
                invariant
                    0 <= i <= members@.len(),
                    readings@.len() == i,
                    ms == members_view(members@),
                    forall|s: &str| read_float.requires((s,)),
                    forall|j: int|
                        0 <= j < i ==> member_reading_by(
                            *read_float,
                            #[trigger] ms[j].1,
                            readings_view(readings@)[j],
                        ),
                decreases members@.len() - i,
            {
                assert(ms[i as int] == (members@[i as int].0@, members@[i as int].1@));
                let reading = match &members[i].1 {
                    JsonMember::Number(None, t) => read_float_text(read_float, t.as_str()),
                    _ => None,
                };
                readings.push(reading);
                assert(readings_view(readings@)[i as int] == record::float_view(reading));
                i = i + 1;
            }
            let ghost rs = readings_view(readings@);
            assert(json_readings_by(*read_float, ms, rs));
            let r = match json_value_to_fields(&members, &readings) {
                Ok(fields) => {
                    proof {
                        if !line@.contains('\\') {
                            assert(members_as_written(json_line_result(doc), line@));
                            lemma_json_fields_as_written(ms, rs, line@);
                        }
                    }
                    Ok(Record::new(fields, raw))
                },
                Err(e) => Err(e),
            };
            assert(as_parse_outcome(json_record(line@, json_reading(line@), rs)) == parse_outcome(r));
            r
        },
    }
}

} // verus!
