//! Aligning two record streams by key and reporting what differs.
use vstd::prelude::*;

use crate::keys::{self, locate, put_entry, union_keys};
use crate::record::{self, changed_fields, record_key, Record, RecordModel};
use vstd::std_specs::cmp::PartialEqSpecImpl;

verus! {

/// One difference between the streams.
#[derive(Debug)]
pub enum DiffChange {
    OnlyInLeft { record: Record },
    OnlyInRight { record: Record },
    Modified { left: Record, right: Record, changed_fields: Vec<String> },
}

/// What a difference holds, as the contracts speak of it.
pub enum ChangeModel {
    OnlyInLeft(RecordModel),
    OnlyInRight(RecordModel),
    Modified(RecordModel, RecordModel, Seq<Seq<char>>),
}

impl View for DiffChange {
    type V = ChangeModel;

    open spec fn view(&self) -> ChangeModel {
        match self {
            DiffChange::OnlyInLeft { record } => ChangeModel::OnlyInLeft(record@),
            DiffChange::OnlyInRight { record } => ChangeModel::OnlyInRight(record@),
            DiffChange::Modified { left, right, changed_fields } => ChangeModel::Modified(
                left@,
                right@,
                record::text_seq(changed_fields@),
            ),
        }
    }
}

/// Changes are equal when they are of the same kind with equal records and
/// the same field names.
pub open spec fn change_eq(a: ChangeModel, b: ChangeModel) -> bool {
    match (a, b) {
        (ChangeModel::OnlyInLeft(x), ChangeModel::OnlyInLeft(y)) => record::record_eq(x, y),
        (ChangeModel::OnlyInRight(x), ChangeModel::OnlyInRight(y)) => record::record_eq(x, y),
        (ChangeModel::Modified(l1, r1, f1), ChangeModel::Modified(l2, r2, f2)) => {
            record::record_eq(l1, l2) && record::record_eq(r1, r2) && f1 == f2
        },
        _ => false,
    }
}

fn same_names(a: &Vec<String>, b: &Vec<String>) -> (r: bool)
    ensures
        r == (record::text_seq(a@) == record::text_seq(b@)),
{
    if a.len() != b.len() {
        assert(record::text_seq(a@).len() != record::text_seq(b@).len());
        return false;
    }
    let mut i: usize = 0;
    while i < a.len()
        invariant
            0 <= i <= a@.len(),
            a@.len() == b@.len(),
            forall|j: int| 0 <= j < i ==> a@[j]@ == b@[j]@,
        decreases a@.len() - i,
    {
        if a[i] != b[i] {
            assert(record::text_seq(a@)[i as int] != record::text_seq(b@)[i as int]);
            return false;
        }
        i = i + 1;
    }
    assert(record::text_seq(a@) =~= record::text_seq(b@));
    true
}

impl PartialEq for DiffChange {
    fn eq(&self, other: &DiffChange) -> (r: bool) {
        match (self, other) {
            (DiffChange::OnlyInLeft { record: x }, DiffChange::OnlyInLeft { record: y }) => x
                == y,
            (DiffChange::OnlyInRight { record: x }, DiffChange::OnlyInRight { record: y }) => x
                == y,
            (
                DiffChange::Modified { left: l1, right: r1, changed_fields: f1 },
                DiffChange::Modified { left: l2, right: r2, changed_fields: f2 },
            ) => l1 == l2 && r1 == r2 && same_names(f1, f2),
            _ => false,
        }
    }
}

impl Eq for DiffChange {}

impl Clone for DiffChange {
    fn clone(&self) -> (r: Self)
        ensures
            r@ == self@,
    {
        match self {
            DiffChange::OnlyInLeft { record } => DiffChange::OnlyInLeft { record: record.clone() },
            DiffChange::OnlyInRight { record } => DiffChange::OnlyInRight { record: record.clone() },
            DiffChange::Modified { left, right, changed_fields } => {
                let names = changed_fields.clone();
                assert(record::text_seq(names@) =~= record::text_seq(changed_fields@));
                DiffChange::Modified { left: left.clone(), right: right.clone(), changed_fields: names }
            },
        }
    }
}

impl PartialEqSpecImpl for DiffChange {
    open spec fn obeys_eq_spec() -> bool {
        true
    }

    open spec fn eq_spec(&self, other: &DiffChange) -> bool {
        change_eq(self@, other@)
    }
}

/// The records of a stream, as the contracts speak of them.
pub open spec fn records_view(rs: Seq<Record>) -> Seq<RecordModel> {
    rs.map_values(|r: Record| r@)
}

/// The changes of a list, as the contracts speak of them.
pub open spec fn changes_view(cs: Seq<DiffChange>) -> Seq<ChangeModel> {
    cs.map_values(|c: DiffChange| c@)
}

/// The error for the first record of a stream that lacks a key field, if any.
pub open spec fn first_key_error(rs: Seq<RecordModel>, key_fields: Seq<Seq<char>>) -> Option<
    Seq<char>,
>
    decreases rs.len(),
{
    if rs.len() == 0 {
        None
    } else {
        match first_key_error(rs.drop_last(), key_fields) {
            Some(e) => Some(e),
            None => match record::record_key_text(rs.last(), key_fields) {
                Err(e) => Some(e),
                Ok(_) => None,
            },
        }
    }
}

/// The records of a stream by key; of records with the same key the last stands.
pub open spec fn keyed_records(rs: Seq<RecordModel>, key_fields: Seq<Seq<char>>) -> Map<
    Seq<char>,
    RecordModel,
>
    decreases rs.len(),
{
    if rs.len() == 0 {
        Map::empty()
    } else {
        let m = keyed_records(rs.drop_last(), key_fields);
        match record::record_key_text(rs.last(), key_fields) {
            Ok(k) => m.insert(k, rs.last()),
            Err(_) => m,
        }
    }
}

/// The change at one key: a record only on one side, or records on both
/// sides that are not equal; nothing where both sides hold equal records.
pub open spec fn change_at(
    k: Seq<char>,
    l: Map<Seq<char>, RecordModel>,
    r: Map<Seq<char>, RecordModel>,
) -> Seq<ChangeModel> {
    if l.contains_key(k) && r.contains_key(k) {
        if record::record_eq(l[k], r[k]) {
            Seq::empty()
        } else {
            seq![
                ChangeModel::Modified(
                    l[k],
                    r[k],
                    record::changed_field_names(l[k].fields, r[k].fields),
                ),
            ]
        }
    } else if l.contains_key(k) {
        seq![ChangeModel::OnlyInLeft(l[k])]
    } else if r.contains_key(k) {
        seq![ChangeModel::OnlyInRight(r[k])]
    } else {
        Seq::empty()
    }
}

/// The changes at the given keys, in their order.
pub open spec fn changes_over(
    ks: Seq<Seq<char>>,
    l: Map<Seq<char>, RecordModel>,
    r: Map<Seq<char>, RecordModel>,
) -> Seq<ChangeModel>
    decreases ks.len(),
{
    if ks.len() == 0 {
        Seq::empty()
    } else {
        changes_over(ks.drop_last(), l, r) + change_at(ks.last(), l, r)
    }
}

/// Each change at the given keys is the change at one of those keys.
pub proof fn lemma_change_from_key(
    ks: Seq<Seq<char>>,
    l: Map<Seq<char>, RecordModel>,
    r: Map<Seq<char>, RecordModel>,
    i: int,
) -> (k: Seq<char>)
    requires
        0 <= i < changes_over(ks, l, r).len(),
    ensures
        ks.contains(k),
        change_at(k, l, r).len() == 1,
        change_at(k, l, r)[0] == changes_over(ks, l, r)[i],
    decreases ks.len(),
{
    let front = ks.drop_last();
    let prev = changes_over(front, l, r);
    if i < prev.len() {
        let k = lemma_change_from_key(front, l, r, i);
        let j = choose|j: int| 0 <= j < front.len() && front[j] == k;
        assert(ks[j] == k);
        k
    } else {
        assert(ks[ks.len() - 1] == ks.last());
        ks.last()
    }
}

/// The changes between two keyed streams, in increasing key order.
pub open spec fn changes_between(l: Map<Seq<char>, RecordModel>, r: Map<Seq<char>, RecordModel>) -> Seq<
    ChangeModel,
> {
    changes_over(keys::sorted_keys(l.dom() + r.dom()), l, r)
}

/// What diffing two streams gives: the error for the first record of the
/// left stream, then of the right, that lacks a key field; else the changes
/// between the streams keyed by their records' keys.
pub open spec fn diff_outcome(
    left: Seq<RecordModel>,
    right: Seq<RecordModel>,
    key_fields: Seq<Seq<char>>,
) -> Result<Seq<ChangeModel>, Seq<char>> {
    match first_key_error(left, key_fields) {
        Some(e) => Err(e),
        None => match first_key_error(right, key_fields) {
            Some(e) => Err(e),
            None => Ok(
                changes_between(keyed_records(left, key_fields), keyed_records(right, key_fields)),
            ),
        },
    }
}

proof fn lemma_key_error_stays(rs: Seq<RecordModel>, key_fields: Seq<Seq<char>>, j: int)
    requires
        0 <= j <= rs.len(),
        first_key_error(rs.take(j), key_fields) is Some,
    ensures
        first_key_error(rs, key_fields) == first_key_error(rs.take(j), key_fields),
    decreases rs.len() - j,
{
    if j < rs.len() {
        assert(rs.take(j + 1).drop_last() =~= rs.take(j));
        lemma_key_error_stays(rs, key_fields, j + 1);
    } else {
        assert(rs.take(j) =~= rs);
    }
}

/// The records of a stream by key, in increasing key order, or the error for
/// the first record that lacks a key field.
fn index_records(records: &Vec<Record>, key_fields: &[String]) -> (r: Result<
    Vec<(String, Record)>,
    String,
>)
    ensures
        match r {
            Ok(es) => {
                &&& first_key_error(records_view(records@), record::text_seq(key_fields@)) is None
                &&& keys::strictly_sorted(keys::entry_keys(es@))
                &&& keys::entries_map(es@) == keyed_records(records_view(records@), record::text_seq(key_fields@))
            },
            Err(e) => first_key_error(records_view(records@), record::text_seq(key_fields@)) == Some(e@),
        },
{
    let ghost rs = records_view(records@);
    let ghost kf = record::text_seq(key_fields@);
    let mut index: Vec<(String, Record)> = Vec::new();
    let mut i: usize = 0;
    assert(rs.take(0) =~= Seq::<RecordModel>::empty());
    assert(keys::entries_map(index@) =~= Map::<Seq<char>, RecordModel>::empty());
    while i < records.len()
        invariant
            0 <= i <= records@.len(),
            rs == records_view(records@),
            kf == record::text_seq(key_fields@),
            keys::strictly_sorted(keys::entry_keys(index@)),
            first_key_error(rs.take(i as int), kf) is None,
            keys::entries_map(index@) == keyed_records(rs.take(i as int), kf),
        decreases records@.len() - i,
    {
        assert(rs.take(i + 1).drop_last() =~= rs.take(i as int));
        assert(rs.take(i + 1).last() == records@[i as int]@);
        match record_key(&records[i], key_fields) {
            Ok(key) => {
                put_entry(&mut index, key, records[i].clone());
            },
            Err(e) => {
                proof {
                    lemma_key_error_stays(rs, kf, i + 1);
                }
                return Err(e);
            },
        }
        i = i + 1;
    }
    assert(rs.take(i as int) =~= rs);
    Ok(index)
}

/// Aligns two streams of records by key and lists, in increasing key order,
/// each key whose record is only on the left, only on the right, or on both
/// sides but not equal (with the names of the fields that differ). With no
/// key fields a record's key is its fingerprint. Of records with the same key
/// in one stream the last stands. A record that lacks a key field is an error.
pub fn diff_streams(left: Vec<Record>, right: Vec<Record>, key_fields: &[String]) -> (r: Result<
    Vec<DiffChange>,
    String,
>)
    ensures
        match r {
            Ok(cs) => diff_outcome(records_view(left@), records_view(right@), record::text_seq(key_fields@))
                == Ok::<Seq<ChangeModel>, Seq<char>>(changes_view(cs@)),
            Err(e) => diff_outcome(records_view(left@), records_view(right@), record::text_seq(key_fields@))
                == Err::<Seq<ChangeModel>, Seq<char>>(e@),
        },
{
    let left_index = match index_records(&left, key_fields) {
        Ok(es) => es,
        Err(e) => return Err(e),
    };
    let right_index = match index_records(&right, key_fields) {
        Ok(es) => es,
        Err(e) => return Err(e),
    };
    let ghost lm = keys::entries_map(left_index@);
    let ghost rm = keys::entries_map(right_index@);
    let keys = union_keys(&left_index, &right_index);
    let ghost all = keys::entry_keys(keys@);
    let mut changes: Vec<DiffChange> = Vec::new();
    let mut i: usize = 0;
    assert(all.take(0) =~= Seq::<Seq<char>>::empty());
    assert(changes_view(changes@) =~= Seq::<ChangeModel>::empty());
    while i < keys.len()
        invariant
            0 <= i <= keys@.len(),
            all == keys::entry_keys(keys@),
            keys::strictly_sorted(keys::entry_keys(left_index@)),
            keys::strictly_sorted(keys::entry_keys(right_index@)),
            lm == keys::entries_map(left_index@),
            rm == keys::entries_map(right_index@),
            changes_view(changes@) == changes_over(all.take(i as int), lm, rm),
        decreases keys@.len() - i,
    {
        let key = &keys[i].0;
        assert(all[i as int] == key@);
        assert(all.take(i + 1).drop_last() =~= all.take(i as int));
        let ghost before = changes_view(changes@);
        let found_left = locate(&left_index, key.as_str());
        let found_right = locate(&right_index, key.as_str());
        proof {
            keys::lemma_entries_dom(left_index@);
            keys::lemma_entries_dom(right_index@);
            if let Ok(a) = found_left {
                keys::lemma_entry_lookup(left_index@, a as int);
            }
            if let Ok(b) = found_right {
                keys::lemma_entry_lookup(right_index@, b as int);
            }
        }
        match (found_left, found_right) {
            (Ok(a), Ok(b)) => {
                let l = &left_index[a].1;
                let r = &right_index[b].1;
                if !l.equals(r) {
                    let fields = changed_fields(l, r);
                    changes.push(
                        DiffChange::Modified {
                            left: l.clone(),
                            right: r.clone(),
                            changed_fields: fields,
                        },
                    );
                    assert(changes_view(changes@) =~= before + change_at(key@, lm, rm));
                } else {
                    assert(changes_view(changes@) =~= before + change_at(key@, lm, rm));
                }
            },
            (Ok(a), Err(_)) => {
                changes.push(DiffChange::OnlyInLeft { record: left_index[a].1.clone() });
                assert(changes_view(changes@) =~= before + change_at(key@, lm, rm));
            },
            (Err(_), Ok(b)) => {
                changes.push(DiffChange::OnlyInRight { record: right_index[b].1.clone() });
                assert(changes_view(changes@) =~= before + change_at(key@, lm, rm));
            },
            (Err(_), Err(_)) => {
                assert(changes_view(changes@) =~= before + change_at(key@, lm, rm));
            },
        }
        i = i + 1;
    }
    assert(all.take(i as int) =~= all);
    Ok(changes)
}


proof fn lemma_record_eq_reflexive(a: RecordModel)
    ensures
        record::record_eq(a, a),
{
}

proof fn lemma_record_eq_symmetric(a: RecordModel, b: RecordModel)
    ensures
        record::record_eq(a, b) == record::record_eq(b, a),
{
    if record::record_eq(a, b) {
        assert forall|k: Seq<char>| #[trigger] b.fields.contains_key(k) implies record::value_eq(
            b.fields[k],
            a.fields[k],
        ) by {
            assert(a.fields.contains_key(k));
        }
    }
    if record::record_eq(b, a) {
        assert forall|k: Seq<char>| #[trigger] a.fields.contains_key(k) implies record::value_eq(
            a.fields[k],
            b.fields[k],
        ) by {
            assert(b.fields.contains_key(k));
        }
    }
}

proof fn lemma_no_changes_with_itself(ks: Seq<Seq<char>>, m: Map<Seq<char>, RecordModel>)
    ensures
        changes_over(ks, m, m) == Seq::<ChangeModel>::empty(),
    decreases ks.len(),
{
    if ks.len() > 0 {
        lemma_no_changes_with_itself(ks.drop_last(), m);
        if m.contains_key(ks.last()) {
            lemma_record_eq_reflexive(m[ks.last()]);
        }
        assert(changes_over(ks, m, m) =~= Seq::<ChangeModel>::empty());
    }
}

/// A stream diffed with itself has no changes: the outcome is the error for
/// its first record that lacks a key field, or else no change at all.
pub proof fn lemma_diff_with_itself(rs: Seq<RecordModel>, key_fields: Seq<Seq<char>>)
    ensures
        diff_outcome(rs, rs, key_fields) == match first_key_error(rs, key_fields) {
            Some(e) => Err::<Seq<ChangeModel>, Seq<char>>(e),
            None => Ok(Seq::<ChangeModel>::empty()),
        },
{
    let m = keyed_records(rs, key_fields);
    lemma_no_changes_with_itself(keys::sorted_keys(m.dom() + m.dom()), m);
}

/// A change seen from the other side: left and right swapped.
pub open spec fn mirrored(c: ChangeModel) -> ChangeModel {
    match c {
        ChangeModel::OnlyInLeft(r) => ChangeModel::OnlyInRight(r),
        ChangeModel::OnlyInRight(r) => ChangeModel::OnlyInLeft(r),
        ChangeModel::Modified(l, r, f) => ChangeModel::Modified(r, l, f),
    }
}

proof fn lemma_changes_mirror(
    ks: Seq<Seq<char>>,
    l: Map<Seq<char>, RecordModel>,
    r: Map<Seq<char>, RecordModel>,
)
    ensures
        changes_over(ks, r, l) == changes_over(ks, l, r).map_values(|c: ChangeModel| mirrored(c)),
    decreases ks.len(),
{
    if ks.len() > 0 {
        let k = ks.last();
        lemma_changes_mirror(ks.drop_last(), l, r);
        if l.contains_key(k) && r.contains_key(k) {
            lemma_record_eq_symmetric(l[k], r[k]);
            crate::record::lemma_changed_field_names_symmetric(l[k].fields, r[k].fields);
        }
        assert(changes_over(ks, r, l) =~= changes_over(ks, l, r).map_values(
            |c: ChangeModel| mirrored(c),
        ));
    }
}

/// Diffing the right stream against the left gives the same changes as
/// diffing the left against the right, each seen from the other side; the
/// one succeeds exactly when the other does.
pub proof fn lemma_diff_mirror(
    left: Seq<RecordModel>,
    right: Seq<RecordModel>,
    key_fields: Seq<Seq<char>>,
)
    ensures
        diff_outcome(left, right, key_fields) is Ok <==> diff_outcome(right, left, key_fields) is Ok,
        diff_outcome(left, right, key_fields) is Ok ==> diff_outcome(right, left, key_fields)->Ok_0
            == diff_outcome(left, right, key_fields)->Ok_0.map_values(
            |c: ChangeModel| mirrored(c),
        ),
{
    let lm = keyed_records(left, key_fields);
    let rm = keyed_records(right, key_fields);
    assert(rm.dom() + lm.dom() =~= lm.dom() + rm.dom());
    lemma_changes_mirror(keys::sorted_keys(lm.dom() + rm.dom()), lm, rm);
}

proof fn lemma_keyed_records_finite(rs: Seq<RecordModel>, key_fields: Seq<Seq<char>>)
    ensures
        keyed_records(rs, key_fields).dom().finite(),
    decreases rs.len(),
{
    if rs.len() > 0 {
        lemma_keyed_records_finite(rs.drop_last(), key_fields);
    }
}

proof fn lemma_changes_empty(
    ks: Seq<Seq<char>>,
    l: Map<Seq<char>, RecordModel>,
    r: Map<Seq<char>, RecordModel>,
)
    ensures
        changes_over(ks, l, r).len() == 0 <==> forall|i: int|
            0 <= i < ks.len() ==> (#[trigger] change_at(ks[i], l, r)).len() == 0,
    decreases ks.len(),
{
    if ks.len() > 0 {
        lemma_changes_empty(ks.drop_last(), l, r);
        let front = ks.drop_last();
        if changes_over(ks, l, r).len() == 0 {
            assert forall|i: int| 0 <= i < ks.len() implies (#[trigger] change_at(
                ks[i],
                l,
                r,
            )).len() == 0 by {
                if i < ks.len() - 1 {
                    assert(front[i] == ks[i]);
                }
            }
        }
        if forall|i: int| 0 <= i < ks.len() ==> (#[trigger] change_at(ks[i], l, r)).len() == 0 {
            assert forall|i: int| 0 <= i < front.len() implies (#[trigger] change_at(
                front[i],
                l,
                r,
            )).len() == 0 by {
                assert(front[i] == ks[i]);
            }
            assert(change_at(ks[ks.len() - 1], l, r).len() == 0);
        }
    }
}

/// Two streams have no changes between them exactly when every record has a
/// key, both streams have records at the same keys, and at each key the two
/// records are equal.
pub proof fn lemma_no_changes_iff_aligned(
    left: Seq<RecordModel>,
    right: Seq<RecordModel>,
    key_fields: Seq<Seq<char>>,
)
    ensures
        diff_outcome(left, right, key_fields) == Ok::<Seq<ChangeModel>, Seq<char>>(
            Seq::empty(),
        ) <==> {
            let lm = keyed_records(left, key_fields);
            let rm = keyed_records(right, key_fields);
            &&& first_key_error(left, key_fields) is None
            &&& first_key_error(right, key_fields) is None
            &&& lm.dom() == rm.dom()
            &&& forall|k: Seq<char>| #[trigger] lm.contains_key(k) ==> record::record_eq(lm[k], rm[k])
        },
{
    let lm = keyed_records(left, key_fields);
    let rm = keyed_records(right, key_fields);
    let u = lm.dom() + rm.dom();
    lemma_keyed_records_finite(left, key_fields);
    lemma_keyed_records_finite(right, key_fields);
    crate::keys::lemma_sorted_keys_exist(u);
    let ks = keys::sorted_keys(u);
    lemma_changes_empty(ks, lm, rm);
    if first_key_error(left, key_fields) is None && first_key_error(right, key_fields) is None {
        if changes_over(ks, lm, rm).len() == 0 {
            assert forall|k: Seq<char>| #[trigger] u.contains(k) implies lm.contains_key(k)
                && rm.contains_key(k) && record::record_eq(lm[k], rm[k]) by {
                assert(ks.to_set().contains(k));
                let i = choose|i: int| 0 <= i < ks.len() && ks[i] == k;
                assert(change_at(ks[i], lm, rm).len() == 0);
            }
            assert forall|k: Seq<char>| #[trigger] lm.contains_key(k) implies record::record_eq(
                lm[k],
                rm[k],
            ) by {
                assert(u.contains(k));
            }
            assert(lm.dom() =~= rm.dom()) by {
                assert forall|k: Seq<char>| lm.contains_key(k) implies rm.contains_key(k) by {
                    assert(u.contains(k));
                }
                assert forall|k: Seq<char>| rm.contains_key(k) implies lm.contains_key(k) by {
                    assert(u.contains(k));
                }
            }
            assert(changes_over(ks, lm, rm) =~= Seq::<ChangeModel>::empty());
        }
        if lm.dom() == rm.dom() && forall|k: Seq<char>| #[trigger]
            lm.contains_key(k) ==> record::record_eq(lm[k], rm[k]) {
            assert forall|i: int| 0 <= i < ks.len() implies (#[trigger] change_at(
                ks[i],
                lm,
                rm,
            )).len() == 0 by {
                assert(ks.to_set().contains(ks[i]));
                assert(u.contains(ks[i]));
                assert(lm.contains_key(ks[i]));
            }
            assert(changes_over(ks, lm, rm) =~= Seq::<ChangeModel>::empty());
        }
    }
}

} // verus!
