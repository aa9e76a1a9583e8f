//! JSON lines: one JSON object per change, with a `kind` member.
use vstd::prelude::*;

use crate::diff::{self, ChangeModel, DiffChange};
use crate::keys;
use crate::record::{self, text_of, Record, RecordModel, Value, ValueModel};

verus! {

/// Writes changes as JSON lines.
pub struct JsonlFormatter;

/// A member's value in the JSON object of a change: a text, a record, or a
/// list of field names.
#[derive(Debug)]
pub enum JsonItem {
    Text(String),
    Record(Record),
    Names(Vec<String>),
}

pub enum JsonItemModel {
    Text(Seq<char>),
    Record(RecordModel),
    Names(Seq<Seq<char>>),
}

impl View for JsonItem {
    type V = JsonItemModel;

    open spec fn view(&self) -> JsonItemModel {
        match self {
            JsonItem::Text(t) => JsonItemModel::Text(t@),
            JsonItem::Record(r) => JsonItemModel::Record(r@),
            JsonItem::Names(n) => JsonItemModel::Names(record::text_seq(n@)),
        }
    }
}

pub open spec fn members_view(ms: Seq<(String, JsonItem)>) -> Seq<(Seq<char>, JsonItemModel)> {
    ms.map_values(|m: (String, JsonItem)| (m.0@, m.1@))
}

/// The members of the JSON object of a change, in order of name.
pub open spec fn change_members(c: ChangeModel) -> Seq<(Seq<char>, JsonItemModel)> {
    match c {
        ChangeModel::OnlyInLeft(r) => seq![
            ("kind"@, JsonItemModel::Text("only_in_left"@)),
            ("record"@, JsonItemModel::Record(r)),
        ],
        ChangeModel::OnlyInRight(r) => seq![
            ("kind"@, JsonItemModel::Text("only_in_right"@)),
            ("record"@, JsonItemModel::Record(r)),
        ],
        ChangeModel::Modified(l, r, names) => seq![
            ("changed_fields"@, JsonItemModel::Names(names)),
            ("kind"@, JsonItemModel::Text("modified"@)),
            ("left"@, JsonItemModel::Record(l)),
            ("right"@, JsonItemModel::Record(r)),
        ],
    }
}

/// The value of the first member of that name.
pub open spec fn member_named(ms: Seq<(Seq<char>, JsonItemModel)>, name: Seq<char>) -> Option<
    JsonItemModel,
>
    decreases ms.len(),
{
    if ms.len() == 0 {
        None
    } else if ms[0].0 == name {
        Some(ms[0].1)
    } else {
        member_named(ms.drop_first(), name)
    }
}

/// In the JSON object written for a change that diffing two streams gives,
/// the members follow the sides: there is a key at which the change stands;
/// where both streams have a record at it, `kind` is `modified`, `left`
/// holds the left stream's record, `right` the right stream's, and
/// `changed_fields` the fields that differ between them; where only one
/// stream has a record at it, `kind` says which and `record` holds it.
pub proof fn lemma_members_follow_sides(
    left: Seq<RecordModel>,
    right: Seq<RecordModel>,
    key_fields: Seq<Seq<char>>,
    i: int,
) -> (k: Seq<char>)
    requires
        diff::diff_outcome(left, right, key_fields) is Ok,
        0 <= i < diff::diff_outcome(left, right, key_fields)->Ok_0.len(),
    ensures
        ({
            let lm = diff::keyed_records(left, key_fields);
            let rm = diff::keyed_records(right, key_fields);
            let ms = change_members(diff::diff_outcome(left, right, key_fields)->Ok_0[i]);
            &&& lm.contains_key(k) || rm.contains_key(k)
            &&& lm.contains_key(k) && rm.contains_key(k) ==> {
                &&& !record::record_eq(lm[k], rm[k])
                &&& member_named(ms, "kind"@) == Some(JsonItemModel::Text("modified"@))
                &&& member_named(ms, "left"@) == Some(JsonItemModel::Record(lm[k]))
                &&& member_named(ms, "right"@) == Some(JsonItemModel::Record(rm[k]))
                &&& member_named(ms, "changed_fields"@) == Some(
                    JsonItemModel::Names(record::changed_field_names(lm[k].fields, rm[k].fields)),
                )
            }
            &&& lm.contains_key(k) && !rm.contains_key(k) ==> {
                &&& member_named(ms, "kind"@) == Some(JsonItemModel::Text("only_in_left"@))
                &&& member_named(ms, "record"@) == Some(JsonItemModel::Record(lm[k]))
            }
            &&& !lm.contains_key(k) && rm.contains_key(k) ==> {
                &&& member_named(ms, "kind"@) == Some(JsonItemModel::Text("only_in_right"@))
                &&& member_named(ms, "record"@) == Some(JsonItemModel::Record(rm[k]))
            }
        }),
{
    let lm = diff::keyed_records(left, key_fields);
    let rm = diff::keyed_records(right, key_fields);
    let ks = keys::sorted_keys(lm.dom() + rm.dom());
    let k = diff::lemma_change_from_key(ks, lm, rm, i);
    reveal_strlit("kind");
    reveal_strlit("record");
    reveal_strlit("left");
    reveal_strlit("right");
    reveal_strlit("changed_fields");
    assert("kind"@[0] == 'k' && "record"@[0] == 'r' && "left"@[0] == 'l' && "right"@[0] == 'r'
        && "changed_fields"@[0] == 'c' && "record"@[1] == 'e' && "right"@[1] == 'i');
    let c = diff::diff_outcome(left, right, key_fields)->Ok_0[i];
    let ms = change_members(c);
    reveal_with_fuel(member_named, 5);
    if lm.contains_key(k) && rm.contains_key(k) {
        assert(ms.drop_first().drop_first().drop_first()[0].0 == "right"@);
    }
    k
}

/// A member's value in the JSON object of a record: its fields, in name
/// order, or its raw text.
#[derive(Debug)]
pub enum RecordPart {
    Fields(Vec<(String, Value)>),
    Raw(String),
}

pub enum RecordPartModel {
    Fields(Seq<(Seq<char>, ValueModel)>),
    Raw(Seq<char>),
}

pub open spec fn named_values_view(vs: Seq<(String, Value)>) -> Seq<(Seq<char>, ValueModel)> {
    vs.map_values(|e: (String, Value)| (e.0@, e.1@))
}

impl View for RecordPart {
    type V = RecordPartModel;

    open spec fn view(&self) -> RecordPartModel {
        match self {
            RecordPart::Fields(vs) => RecordPartModel::Fields(named_values_view(vs@)),
            RecordPart::Raw(t) => RecordPartModel::Raw(t@),
        }
    }
}

pub open spec fn record_parts_view(ms: Seq<(String, RecordPart)>) -> Seq<(Seq<char>, RecordPartModel)> {
    ms.map_values(|m: (String, RecordPart)| (m.0@, m.1@))
}

/// The fields of a record in increasing order of name, each with its value.
pub open spec fn fields_in_order(m: Map<Seq<char>, ValueModel>) -> Seq<(Seq<char>, ValueModel)> {
    keys::sorted_keys(m.dom()).map_values(|k: Seq<char>| (k, m[k]))
}

/// The members of the JSON object of a record: `fields`, then `raw`.
pub open spec fn record_member_models(r: RecordModel) -> Seq<(Seq<char>, RecordPartModel)> {
    seq![
        ("fields"@, RecordPartModel::Fields(fields_in_order(r.fields))),
        ("raw"@, RecordPartModel::Raw(r.raw)),
    ]
}

impl JsonlFormatter {
    /// The members of the JSON object written for a record, in order of name.
    pub fn record_members(&self, record: &Record) -> (r: Vec<(String, RecordPart)>)
        ensures
            record_parts_view(r@) == record_member_models(record@),
    {
        let fields = &record.fields;
        let n = fields.len();
        let ghost ks = keys::sorted_keys(fields@.dom());
        proof {
            keys::lemma_sorted_keys_len(fields@.dom());
        }
        let mut named: Vec<(String, Value)> = Vec::new();
        let mut i: usize = 0;
        while i < n
            invariant
                0 <= i <= n,
                n == fields@.dom().len(),
                ks == keys::sorted_keys(fields@.dom()),
                ks.len() == n,
                named_values_view(named@) =~= ks.take(i as int).map_values(
                    |k: Seq<char>| (k, fields@[k]),
                ),
            decreases n - i,
        {
            let (k, v) = fields.entry(i);
            let ghost before = named@;
            let key = k.clone();
            let value = v.clone();
            named.push((key, value));
            assert(named@ == before.push((key, value)));
            assert(named_values_view(named@) =~= named_values_view(before).push(
                (ks[i as int], fields@[ks[i as int]]),
            ));
            assert(ks.take(i + 1) =~= ks.take(i as int).push(ks[i as int]));
            i = i + 1;
        }
        assert(ks.take(i as int) =~= ks);
        let mut out: Vec<(String, RecordPart)> = Vec::new();
        out.push((text_of("fields"), RecordPart::Fields(named)));
        out.push((text_of("raw"), RecordPart::Raw(record.raw.clone())));
        assert(record_parts_view(out@) =~= record_member_models(record@));
        out
    }

    /// The members of the JSON object written for a change, in order of name.
    pub fn members(&self, change: &DiffChange) -> (r: Vec<(String, JsonItem)>)
        ensures
            members_view(r@) == change_members(change@),
    {
        let mut out: Vec<(String, JsonItem)> = Vec::new();
        match change {
            DiffChange::OnlyInLeft { record } => {
                out.push((text_of("kind"), JsonItem::Text(text_of("only_in_left"))));
                out.push((text_of("record"), JsonItem::Record(record.clone())));
            },
            DiffChange::OnlyInRight { record } => {
                out.push((text_of("kind"), JsonItem::Text(text_of("only_in_right"))));
                out.push((text_of("record"), JsonItem::Record(record.clone())));
            },
            DiffChange::Modified { left, right, changed_fields } => {
                out.push((text_of("changed_fields"), JsonItem::Names(changed_fields.clone())));
                out.push((text_of("kind"), JsonItem::Text(text_of("modified"))));
                out.push((text_of("left"), JsonItem::Record(left.clone())));
                out.push((text_of("right"), JsonItem::Record(right.clone())));
            },
        }
        assert(members_view(out@) =~= change_members(change@));
        out
    }
}

} // verus!
