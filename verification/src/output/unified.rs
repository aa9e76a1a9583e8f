//! Unified-style text: a record only on one side as its raw line after `-` or
//! `+`, a modified record as `@@ modified @@` and a pair of lines per field.
use vstd::prelude::*;

use crate::diff::{ChangeModel, DiffChange};
use crate::record::{self, text_of, FieldMap, Value, ValueModel};
use crate::text::{self, i64_text, push_text};

verus! {

/// Writes changes as unified-style text.
pub struct UnifiedFormatter;

/// The text of a value in unified output: texts without quotes.
pub open spec fn display_text(v: ValueModel) -> Seq<char> {
    match v {
        ValueModel::Str(s) => s,
        ValueModel::Int(i) => text::int_text(i as int),
        ValueModel::Float(_, t) => t,
        ValueModel::Bool(b) => record::bool_text(b),
        ValueModel::Null => "null"@,
    }
}

/// The text of a field on one side: its value, or `-` where that side lacks it.
pub open spec fn side_text(m: Map<Seq<char>, ValueModel>, name: Seq<char>) -> Seq<char> {
    if m.contains_key(name) {
        display_text(m[name])
    } else {
        "-"@
    }
}

/// Two lines per named field: `-name=left` and `+name=right`.
pub open spec fn field_lines(
    names: Seq<Seq<char>>,
    l: Map<Seq<char>, ValueModel>,
    r: Map<Seq<char>, ValueModel>,
) -> Seq<Seq<char>>
    decreases names.len(),
{
    if names.len() == 0 {
        Seq::empty()
    } else {
        let n = names.last();
        field_lines(names.drop_last(), l, r) + seq![
            "-"@ + n + "="@ + side_text(l, n),
            "+"@ + n + "="@ + side_text(r, n),
        ]
    }
}

/// The lines written for a change.
pub open spec fn unified_lines(c: ChangeModel) -> Seq<Seq<char>> {
    match c {
        ChangeModel::OnlyInLeft(rec) => seq!["- "@ + rec.raw],
        ChangeModel::OnlyInRight(rec) => seq!["+ "@ + rec.raw],
        ChangeModel::Modified(l, r, names) => seq!["@@ modified @@"@] + field_lines(
            names,
            l.fields,
            r.fields,
        ),
    }
}

/// An integer's text in unified output reads back as that integer, and so
/// does the text shown for an integer field on either side.
pub proof fn lemma_display_int_reads_back(i: i64, m: Map<Seq<char>, ValueModel>, name: Seq<char>)
    ensures
        text::parse_i64_text(display_text(ValueModel::Int(i))) == Some(i),
        m.contains_key(name) && m[name] == ValueModel::Int(i) ==> text::parse_i64_text(
            side_text(m, name),
        ) == Some(i),
{
    text::lemma_int_text_parses(i);
}

/// A field that a side lacks is shown as `-`, which no value of a text field
/// other than `-` itself, and no integer, boolean or null, is shown as.
pub proof fn lemma_missing_side_shown_as_dash(m: Map<Seq<char>, ValueModel>, name: Seq<char>)
    ensures
        !m.contains_key(name) ==> side_text(m, name) == "-"@,
        m.contains_key(name) && !(m[name] is Str) && !(m[name] is Float) ==> side_text(m, name)
            != "-"@,
{
    reveal_strlit("-");
    reveal_strlit("true");
    reveal_strlit("false");
    reveal_strlit("null");
    if m.contains_key(name) {
        match m[name] {
            ValueModel::Int(i) => {
                text::lemma_int_text_parses(i);
                if side_text(m, name) == "-"@ {
                    assert(text::sign_len("-"@) == 1);
                    assert("-"@.skip(1).len() == 0);
                }
            },
            ValueModel::Bool(b) => {
                assert(side_text(m, name).len() > 1);
            },
            ValueModel::Null => {
                assert(side_text(m, name).len() > 1);
            },
            _ => {},
        }
    }
}

/// The text of a value in unified output.
pub fn value_display(v: &Value) -> (r: String)
    ensures
        r@ == display_text(v@),
{
    match v {
        Value::Str(s) => s.clone(),
        Value::Int(i) => i64_text(*i),
        Value::Float(f) => f.text.clone(),
        Value::Bool(b) => if *b {
            text_of("true")
        } else {
            text_of("false")
        },
        Value::Null => text_of("null"),
    }
}

fn side_line(sign: &str, name: &String, fields: &FieldMap) -> (r: String)
    ensures
        r@ == sign@ + name@ + "="@ + side_text(fields@, name@),
{
    let mut line = text_of(sign);
    push_text(&mut line, name.as_str());
    push_text(&mut line, "=");
    match fields.get(name.as_str()) {
        Some(v) => {
            let t = value_display(v);
            push_text(&mut line, t.as_str());
        },
        None => {
            push_text(&mut line, "-");
        },
    }
    line
}

impl UnifiedFormatter {
    /// The lines to write for a change, without their line ends.
    pub fn lines(&self, change: &DiffChange) -> (r: Vec<String>)
        ensures
            record::text_seq(r@) == unified_lines(change@),
    {
        let mut out: Vec<String> = Vec::new();
        match change {
            DiffChange::OnlyInLeft { record } => {
                let mut line = text_of("- ");
                push_text(&mut line, record.raw.as_str());
                out.push(line);
                assert(record::text_seq(out@) =~= unified_lines(change@));
            },
            DiffChange::OnlyInRight { record } => {
                let mut line = text_of("+ ");
                push_text(&mut line, record.raw.as_str());
                out.push(line);
                assert(record::text_seq(out@) =~= unified_lines(change@));
            },
            DiffChange::Modified { left, right, changed_fields } => {
                out.push(text_of("@@ modified @@"));
                let ghost names = record::text_seq(changed_fields@);
                let mut i: usize = 0;
                assert(names.take(0) =~= Seq::<Seq<char>>::empty());
                assert(record::text_seq(out@) =~= seq!["@@ modified @@"@] + field_lines(
                    names.take(0),
                    left@.fields,
                    right@.fields,
                ));
                while i < changed_fields.len()
                    invariant
                        0 <= i <= changed_fields@.len(),
                        names == record::text_seq(changed_fields@),
                        record::text_seq(out@) == seq!["@@ modified @@"@] + field_lines(
                            names.take(i as int),
                            left@.fields,
                            right@.fields,
                        ),
                    decreases changed_fields@.len() - i,
                {
                    let name = &changed_fields[i];
                    assert(names.take(i + 1).drop_last() =~= names.take(i as int));
                    assert(names.take(i + 1).last() == name@);
                    let ghost before = out@;
                    out.push(side_line("-", name, &left.fields));
                    out.push(side_line("+", name, &right.fields));
                    assert(record::text_seq(out@) =~= record::text_seq(before) + seq![
                        out@[before.len() as int]@,
                        out@[before.len() + 1int]@,
                    ]);
                    i = i + 1;
                }
                assert(names.take(i as int) =~= names);
            },
        }
        out
    }
}

} // verus!
