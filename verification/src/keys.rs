//! The order on text keys: that of `str`, which compares the UTF-8 bytes
//! lexicographically, and the strictly sorted key sequences built on it.
use vstd::prelude::*;

verus! {

/// Lexicographic order on byte strings; a proper prefix comes first.
pub open spec fn bytes_lt(a: Seq<u8>, b: Seq<u8>) -> bool
    decreases a.len(),
{
    if b.len() == 0 {
        false
    } else if a.len() == 0 {
        true
    } else if a[0] != b[0] {
        a[0] < b[0]
    } else {
        bytes_lt(a.drop_first(), b.drop_first())
    }
}

/// `a` orders before `b` as `str` values do: by their UTF-8 bytes.
pub open spec fn text_lt(a: Seq<char>, b: Seq<char>) -> bool {
    bytes_lt(vstd::utf8::encode_utf8(a), vstd::utf8::encode_utf8(b))
}

/// Every key orders before every later key (so none occurs twice).
pub open spec fn strictly_sorted(ks: Seq<Seq<char>>) -> bool {
    forall|i: int, j: int| 0 <= i < j < ks.len() ==> text_lt(#[trigger] ks[i], #[trigger] ks[j])
}

/// The keys of a finite set in increasing order.
pub open spec fn sorted_keys(s: Set<Seq<char>>) -> Seq<Seq<char>> {
    choose|ks: Seq<Seq<char>>| strictly_sorted(ks) && ks.to_set() == s
}

pub proof fn lemma_bytes_lt_irreflexive(a: Seq<u8>)
    ensures
        !bytes_lt(a, a),
    decreases a.len(),
{
    if a.len() > 0 {
        lemma_bytes_lt_irreflexive(a.drop_first());
    }
}

pub proof fn lemma_bytes_lt_transitive(a: Seq<u8>, b: Seq<u8>, c: Seq<u8>)
    requires
        bytes_lt(a, b),
        bytes_lt(b, c),
    ensures
        bytes_lt(a, c),
    decreases a.len(),
{
    if a.len() > 0 && b.len() > 0 && c.len() > 0 && a[0] == b[0] && b[0] == c[0] {
        lemma_bytes_lt_transitive(a.drop_first(), b.drop_first(), c.drop_first());
    }
}

pub proof fn lemma_bytes_lt_total(a: Seq<u8>, b: Seq<u8>)
    ensures
        a == b || bytes_lt(a, b) || bytes_lt(b, a),
    decreases a.len(),
{
    if a.len() > 0 && b.len() > 0 && a[0] == b[0] {
        lemma_bytes_lt_total(a.drop_first(), b.drop_first());
        if a.drop_first() == b.drop_first() {
            assert(a =~= seq![a[0]] + a.drop_first());
            assert(b =~= seq![b[0]] + b.drop_first());
        }
    } else if a.len() == 0 && b.len() == 0 {
        assert(a =~= b);
    }
}

/// Moving past a common prefix does not change the order.
pub proof fn lemma_bytes_lt_skip(a: Seq<u8>, b: Seq<u8>, i: int)
    requires
        0 <= i <= a.len(),
        i <= b.len(),
        a.take(i) =~= b.take(i),
    ensures
        bytes_lt(a, b) == bytes_lt(a.skip(i), b.skip(i)),
    decreases i,
{
    if i > 0 {
        assert(a[0] == a.take(i)[0]);
        assert(b[0] == b.take(i)[0]);
        assert(a.drop_first().take(i - 1) =~= b.drop_first().take(i - 1)) by {
            assert forall|k: int| 0 <= k < i - 1 implies #[trigger] a.drop_first().take(i - 1)[k]
                == b.drop_first().take(i - 1)[k] by {
                assert(a.take(i)[k + 1] == b.take(i)[k + 1]);
            }
        }
        lemma_bytes_lt_skip(a.drop_first(), b.drop_first(), i - 1);
        assert(a.drop_first().skip(i - 1) =~= a.skip(i));
        assert(b.drop_first().skip(i - 1) =~= b.skip(i));
    } else {
        assert(a.skip(0) =~= a);
        assert(b.skip(0) =~= b);
    }
}

pub proof fn lemma_text_lt_irreflexive(a: Seq<char>)
    ensures
        !text_lt(a, a),
{
    lemma_bytes_lt_irreflexive(vstd::utf8::encode_utf8(a));
}

pub proof fn lemma_text_lt_transitive(a: Seq<char>, b: Seq<char>, c: Seq<char>)
    requires
        text_lt(a, b),
        text_lt(b, c),
    ensures
        text_lt(a, c),
{
    lemma_bytes_lt_transitive(vstd::utf8::encode_utf8(a), vstd::utf8::encode_utf8(b), vstd::utf8::encode_utf8(c));
}

/// Equal encodings come only from equal texts.
pub proof fn lemma_encoding_injective(a: Seq<char>, b: Seq<char>)
    requires
        vstd::utf8::encode_utf8(a) == vstd::utf8::encode_utf8(b),
    ensures
        a == b,
{
    vstd::utf8::encode_utf8_decode_utf8(a);
    vstd::utf8::encode_utf8_decode_utf8(b);
}

pub proof fn lemma_text_lt_total(a: Seq<char>, b: Seq<char>)
    ensures
        a == b || text_lt(a, b) || text_lt(b, a),
{
    lemma_bytes_lt_total(vstd::utf8::encode_utf8(a), vstd::utf8::encode_utf8(b));
    if vstd::utf8::encode_utf8(a) == vstd::utf8::encode_utf8(b) {
        lemma_encoding_injective(a, b);
    }
}

pub proof fn lemma_text_lt_asymmetric(a: Seq<char>, b: Seq<char>)
    requires
        text_lt(a, b),
    ensures
        !text_lt(b, a),
        a != b,
{
    lemma_text_lt_irreflexive(a);
    if text_lt(b, a) {
        lemma_text_lt_transitive(a, b, a);
    }
}

/// Two strictly sorted sequences with the same keys are the same sequence.
pub proof fn lemma_sorted_unique(a: Seq<Seq<char>>, b: Seq<Seq<char>>)
    requires
        strictly_sorted(a),
        strictly_sorted(b),
        a.to_set() == b.to_set(),
    ensures
        a == b,
    decreases a.len(),
{
    if a.len() == 0 {
        if b.len() > 0 {
            assert(b.to_set().contains(b[0]));
        }
        assert(a =~= b);
    } else if b.len() == 0 {
        assert(a.to_set().contains(a[0]));
    } else {
        assert(a.to_set().contains(b[0]));
        assert(b.to_set().contains(a[0]));
        let ia = choose|i: int| 0 <= i < a.len() && a[i] == b[0];
        let ib = choose|i: int| 0 <= i < b.len() && b[i] == a[0];
        if a[0] != b[0] {
            assert(ia > 0 && ib > 0);
            assert(text_lt(a[0], a[ia]));
            assert(text_lt(b[0], b[ib]));
            lemma_text_lt_asymmetric(a[0], b[0]);
        }
        let a1 = a.drop_first();
        let b1 = b.drop_first();
        assert(strictly_sorted(a1)) by {
            assert forall|i: int, j: int| 0 <= i < j < a1.len() implies text_lt(
                #[trigger] a1[i],
                #[trigger] a1[j],
            ) by {
                assert(a1[i] == a[i + 1] && a1[j] == a[j + 1]);
            }
        }
        assert(strictly_sorted(b1)) by {
            assert forall|i: int, j: int| 0 <= i < j < b1.len() implies text_lt(
                #[trigger] b1[i],
                #[trigger] b1[j],
            ) by {
                assert(b1[i] == b[i + 1] && b1[j] == b[j + 1]);
            }
        }
        assert(a1.to_set() =~= b1.to_set()) by {
            assert forall|k: Seq<char>| a1.to_set().contains(k) implies b1.to_set().contains(k) by {
                let i = choose|i: int| 0 <= i < a1.len() && a1[i] == k;
                assert(a.to_set().contains(k) && a[i + 1] == k);
                lemma_text_lt_asymmetric(a[0], a[i + 1]);
                let j = choose|j: int| 0 <= j < b.len() && b[j] == k;
                assert(j != 0);
                assert(b1[j - 1] == k);
            }
            assert forall|k: Seq<char>| b1.to_set().contains(k) implies a1.to_set().contains(k) by {
                let i = choose|i: int| 0 <= i < b1.len() && b1[i] == k;
                assert(b.to_set().contains(k) && b[i + 1] == k);
                lemma_text_lt_asymmetric(b[0], b[i + 1]);
                let j = choose|j: int| 0 <= j < a.len() && a[j] == k;
                assert(j != 0);
                assert(a1[j - 1] == k);
            }
        }
        lemma_sorted_unique(a1, b1);
        assert(a =~= seq![a[0]] + a1);
        assert(b =~= seq![b[0]] + b1);
    }
}

/// The keys of a sequence with one more key at its end.
pub proof fn lemma_push_to_set(s: Seq<Seq<char>>, x: Seq<char>)
    ensures
        s.push(x).to_set() == s.to_set().insert(x),
{
    assert forall|k: Seq<char>| #[trigger] s.push(x).to_set().contains(k) == s.to_set().insert(
        x,
    ).contains(k) by {
        if s.to_set().contains(k) {
            let j = choose|j: int| 0 <= j < s.len() && s[j] == k;
            assert(s.push(x)[j] == k);
        }
        if k == x {
            assert(s.push(x)[s.len() as int] == x);
        }
        if s.push(x).to_set().contains(k) {
            let j = choose|j: int| 0 <= j < s.push(x).len() && s.push(x)[j] == k;
            if j < s.len() {
                assert(s[j] == k);
            }
        }
    }
    assert(s.push(x).to_set() =~= s.to_set().insert(x));
}

/// A key put into an increasing sequence of keys at its place.
pub open spec fn insert_in_order(ks: Seq<Seq<char>>, x: Seq<char>) -> Seq<Seq<char>>
    decreases ks.len(),
{
    if ks.len() == 0 {
        seq![x]
    } else if text_lt(ks.last(), x) {
        ks.push(x)
    } else {
        insert_in_order(ks.drop_last(), x).push(ks.last())
    }
}

proof fn lemma_insert_in_order(ks: Seq<Seq<char>>, x: Seq<char>)
    requires
        strictly_sorted(ks),
        !ks.contains(x),
    ensures
        strictly_sorted(insert_in_order(ks, x)),
        insert_in_order(ks, x).to_set() == ks.to_set().insert(x),
    decreases ks.len(),
{
    let r = insert_in_order(ks, x);
    if ks.len() == 0 {
        assert(r.to_set() =~= ks.to_set().insert(x)) by {
            assert(r[0] == x);
        }
    } else if text_lt(ks.last(), x) {
        assert forall|i: int, j: int| 0 <= i < j < r.len() implies text_lt(
            #[trigger] r[i],
            #[trigger] r[j],
        ) by {
            if j == ks.len() {
                if i < ks.len() - 1 {
                    lemma_text_lt_transitive(ks[i], ks.last(), x);
                }
            }
        }
        lemma_push_to_set(ks, x);
    } else {
        let front = ks.drop_last();
        assert(strictly_sorted(front)) by {
            assert forall|i: int, j: int| 0 <= i < j < front.len() implies text_lt(
                #[trigger] front[i],
                #[trigger] front[j],
            ) by {
                assert(front[i] == ks[i] && front[j] == ks[j]);
            }
        }
        assert(!front.contains(x)) by {
            if front.contains(x) {
                let k = choose|k: int| 0 <= k < front.len() && front[k] == x;
                assert(ks[k] == x);
            }
        }
        lemma_insert_in_order(front, x);
        let inner = insert_in_order(front, x);
        assert(ks.last() != x) by {
            assert(ks[ks.len() - 1] == ks.last());
        }
        lemma_text_lt_total(ks.last(), x);
        assert forall|i: int| 0 <= i < inner.len() implies text_lt(#[trigger] inner[i], ks.last())
            by {
            assert(inner.to_set().contains(inner[i]));
            if inner[i] != x {
                assert(front.to_set().contains(inner[i]));
                let k = choose|k: int| 0 <= k < front.len() && front[k] == inner[i];
                assert(front[k] == ks[k]);
            }
        }
        assert forall|i: int, j: int| 0 <= i < j < r.len() implies text_lt(
            #[trigger] r[i],
            #[trigger] r[j],
        ) by {
            if j == inner.len() {
                assert(r[i] == inner[i]);
            } else {
                assert(r[i] == inner[i] && r[j] == inner[j]);
            }
        }
        lemma_push_to_set(inner, ks.last());
        lemma_push_to_set(front, ks.last());
        assert(ks =~= front.push(ks.last()));
        assert(r.to_set() =~= ks.to_set().insert(x));
    }
}

/// Every finite set of keys has an increasing order.
pub proof fn lemma_sorted_keys_exist(s: Set<Seq<char>>)
    requires
        s.finite(),
    ensures
        strictly_sorted(sorted_keys(s)),
        sorted_keys(s).to_set() == s,
    decreases s.len(),
{
    if s.len() == 0 {
        let e = Seq::<Seq<char>>::empty();
        assert(e.to_set() =~= s);
        assert(strictly_sorted(e) && e.to_set() == s);
    } else {
        let x = s.choose();
        let rest = s.remove(x);
        lemma_sorted_keys_exist(rest);
        let ks = sorted_keys(rest);
        assert(!ks.contains(x)) by {
            if ks.contains(x) {
                assert(ks.to_set().contains(x));
            }
        }
        lemma_insert_in_order(ks, x);
        let w = insert_in_order(ks, x);
        assert(w.to_set() =~= s);
        assert(strictly_sorted(w) && w.to_set() == s);
    }
}

/// The increasing order of a finite set has as many keys as the set.
pub proof fn lemma_sorted_keys_len(s: Set<Seq<char>>)
    requires
        s.finite(),
    ensures
        sorted_keys(s).len() == s.len(),
{
    lemma_sorted_keys_exist(s);
    let ks = sorted_keys(s);
    assert(ks.no_duplicates()) by {
        assert forall|i: int, j: int| 0 <= i < ks.len() && 0 <= j < ks.len() && i != j implies ks[i]
            != ks[j] by {
            if ks[i] == ks[j] {
                lemma_text_lt_irreflexive(ks[i]);
            }
        }
    }
    ks.unique_seq_to_set();
}

/// A strictly sorted sequence is the increasing order of its own keys.
pub proof fn lemma_sorted_keys_of(ks: Seq<Seq<char>>)
    requires
        strictly_sorted(ks),
    ensures
        sorted_keys(ks.to_set()) == ks,
{
    let s = ks.to_set();
    assert(strictly_sorted(ks) && ks.to_set() == s);
    let other = sorted_keys(s);
    lemma_sorted_unique(other, ks);
}


/// Where one key stands relative to another.
#[derive(Debug, Clone, Copy, PartialEq, Eq, Structural)]
pub enum KeyOrder {
    Before,
    Same,
    After,
}

/// Compares two texts as `str` values are ordered.
pub fn compare_text(a: &str, b: &str) -> (r: KeyOrder)
    ensures
        (r == KeyOrder::Before) == text_lt(a@, b@),
        (r == KeyOrder::Same) == (a@ == b@),
        (r == KeyOrder::After) == text_lt(b@, a@),
{
    let x = a.as_bytes();
    let y = b.as_bytes();
    let mut i: usize = 0;
    while i < x.len() && i < y.len()
        invariant
            0 <= i <= x@.len(),
            i <= y@.len(),
            x@ == vstd::utf8::encode_utf8(a@),
            y@ == vstd::utf8::encode_utf8(b@),
            x@.take(i as int) =~= y@.take(i as int),
        decreases x@.len() - i,
    {
        if x[i] != y[i] {
            proof {
                lemma_bytes_lt_skip(x@, y@, i as int);
                lemma_bytes_lt_skip(y@, x@, i as int);
                assert(x@.skip(i as int)[0] == x@[i as int]);
                assert(y@.skip(i as int)[0] == y@[i as int]);
                if a@ == b@ {
                    assert(x@ == y@);
                }
            }
            if x[i] < y[i] {
                return KeyOrder::Before;
            } else {
                return KeyOrder::After;
            }
        }
        assert(x@.take(i + 1) =~= x@.take(i as int).push(x@[i as int]));
        assert(y@.take(i + 1) =~= y@.take(i as int).push(y@[i as int]));
        i = i + 1;
    }
    proof {
        lemma_bytes_lt_skip(x@, y@, i as int);
        lemma_bytes_lt_skip(y@, x@, i as int);
    }
    if x.len() == y.len() {
        proof {
            assert(x@ =~= x@.take(i as int));
            assert(y@ =~= y@.take(i as int));
            lemma_encoding_injective(a@, b@);
            lemma_text_lt_irreflexive(a@);
        }
        KeyOrder::Same
    } else if x.len() < y.len() {
        proof {
            lemma_text_lt_asymmetric(a@, b@);
        }
        KeyOrder::Before
    } else {
        proof {
            lemma_text_lt_asymmetric(b@, a@);
        }
        KeyOrder::After
    }
}

/// The keys of a sequence of key/value entries, in their order.
pub open spec fn entry_keys<V>(es: Seq<(String, V)>) -> Seq<Seq<char>> {
    es.map_values(|e: (String, V)| e.0@)
}

/// Where a key stands among strictly sorted entries, found by binary search:
/// `Ok` with its index, or `Err` with the index at which it would be inserted.
pub fn locate<V>(entries: &Vec<(String, V)>, key: &str) -> (r: Result<usize, usize>)
    requires
        strictly_sorted(entry_keys(entries@)),
    ensures
        match r {
            Ok(i) => i < entries@.len() && entries@[i as int].0@ == key@,
            Err(i) => {
                &&& i <= entries@.len()
                &&& !entry_keys(entries@).contains(key@)
                &&& forall|j: int| 0 <= j < i ==> text_lt(#[trigger] entries@[j].0@, key@)
                &&& forall|j: int| i <= j < entries@.len() ==> text_lt(key@, #[trigger] entries@[j].0@)
            },
        },
{
    let ghost ks = entry_keys(entries@);
    let mut lo: usize = 0;
    let mut hi: usize = entries.len();
    while lo < hi
        invariant
            0 <= lo <= hi <= entries@.len(),
            ks == entry_keys(entries@),
            strictly_sorted(ks),
            forall|j: int| 0 <= j < lo ==> text_lt(#[trigger] entries@[j].0@, key@),
            forall|j: int| hi <= j < entries@.len() ==> text_lt(key@, #[trigger] entries@[j].0@),
        decreases hi - lo,
    {
        let mid = lo + (hi - lo) / 2;
        assert(ks[mid as int] == entries@[mid as int].0@);
        match compare_text(entries[mid].0.as_str(), key) {
            KeyOrder::Same => {
                return Ok(mid);
            },
            KeyOrder::Before => {
                assert forall|j: int| 0 <= j < mid + 1 implies text_lt(
                    #[trigger] entries@[j].0@,
                    key@,
                ) by {
                    if j < mid {
                        assert(ks[j] == entries@[j].0@);
                        lemma_text_lt_transitive(entries@[j].0@, entries@[mid as int].0@, key@);
                    }
                }
                lo = mid + 1;
            },
            KeyOrder::After => {
                assert forall|j: int| mid <= j < entries@.len() implies text_lt(
                    key@,
                    #[trigger] entries@[j].0@,
                ) by {
                    if j > mid {
                        assert(ks[j] == entries@[j].0@);
                        lemma_text_lt_transitive(key@, entries@[mid as int].0@, entries@[j].0@);
                    }
                }
                hi = mid;
            },
        }
    }
    assert(!ks.contains(key@)) by {
        if ks.contains(key@) {
            let j = choose|j: int| 0 <= j < ks.len() && ks[j] == key@;
            assert(ks[j] == entries@[j].0@);
            lemma_text_lt_irreflexive(key@);
        }
    }
    Err(lo)
}


/// The index at which a key stands among entries.
pub open spec fn entry_index<V>(es: Seq<(String, V)>, k: Seq<char>) -> int {
    choose|i: int| 0 <= i < es.len() && es[i].0@ == k
}

/// The map that a sequence of entries with distinct keys stands for.
pub open spec fn entries_map<V: View>(es: Seq<(String, V)>) -> Map<Seq<char>, V::V> {
    Map::new(
        |k: Seq<char>| entry_keys(es).contains(k),
        |k: Seq<char>| es[entry_index(es, k)].1@,
    )
}

/// Each entry of a strictly sorted sequence is what its map holds at its key.
pub proof fn lemma_entry_lookup<V: View>(es: Seq<(String, V)>, i: int)
    requires
        strictly_sorted(entry_keys(es)),
        0 <= i < es.len(),
    ensures
        entries_map(es).contains_key(es[i].0@),
        entries_map(es)[es[i].0@] == es[i].1@,
        entry_index(es, es[i].0@) == i,
{
    let ks = entry_keys(es);
    assert(ks[i] == es[i].0@);
    assert(ks.contains(es[i].0@));
    let j = entry_index(es, es[i].0@);
    assert(ks[j] == es[j].0@);
    if j < i {
        lemma_text_lt_irreflexive(ks[i]);
    } else if i < j {
        lemma_text_lt_irreflexive(ks[i]);
    }
}

/// The keys of strictly sorted entries are the increasing order of the map's keys.
pub proof fn lemma_entries_dom<V: View>(es: Seq<(String, V)>)
    requires
        strictly_sorted(entry_keys(es)),
    ensures
        entries_map(es).dom() == entry_keys(es).to_set(),
        sorted_keys(entries_map(es).dom()) == entry_keys(es),
{
    assert(entries_map(es).dom() =~= entry_keys(es).to_set());
    lemma_sorted_keys_of(entry_keys(es));
}

/// Puts a key and its value among strictly sorted entries: a key that is
/// there has its value replaced, another is inserted in its place in order.
pub fn put_entry<V: View>(entries: &mut Vec<(String, V)>, key: String, value: V)
    requires
        strictly_sorted(entry_keys(old(entries)@)),
    ensures
        strictly_sorted(entry_keys(final(entries)@)),
        entries_map(final(entries)@) == entries_map(old(entries)@).insert(key@, value@),
{
    let ghost old_es = entries@;
    let ghost ks = entry_keys(old_es);
    let ghost kv = key@;
    let ghost vv = value@;
    match locate(entries, key.as_str()) {
        Ok(i) => {
            entries.set(i, (key, value));
            proof {
                let es = entries@;
                assert(entry_keys(es) =~= ks);
                assert(ks[i as int] == kv);
                assert(entries_map(es).dom() =~= entries_map(old_es).insert(kv, vv).dom());
                assert forall|k: Seq<char>| #[trigger] entries_map(es).contains_key(k) implies
                    entries_map(es)[k] == entries_map(old_es).insert(kv, vv)[k] by {
                    let j = choose|j: int| 0 <= j < ks.len() && ks[j] == k;
                    assert(entry_keys(es)[j] == es[j].0@);
                    assert(ks[j] == old_es[j].0@);
                    lemma_entry_lookup(es, j);
                    if j != i {
                        assert(es[j] == old_es[j]);
                        lemma_entry_lookup(old_es, j);
                        if j < i {
                            assert(text_lt(ks[j], ks[i as int]));
                        } else {
                            assert(text_lt(ks[i as int], ks[j]));
                        }
                        lemma_text_lt_irreflexive(k);
                    } else {
                        assert(es[j].1@ == vv);
                    }
                }
                assert(entries_map(es) =~= entries_map(old_es).insert(kv, vv));
            }
        },
        Err(i) => {
            entries.insert(i, (key, value));
            proof {
                let es = entries@;
                let ks2 = entry_keys(es);
                assert(ks2 =~= ks.insert(i as int, kv));
                assert forall|a: int, b: int| 0 <= a < b < ks2.len() implies text_lt(
                    #[trigger] ks2[a],
                    #[trigger] ks2[b],
                ) by {
                    if b < i {
                        assert(ks2[a] == ks[a] && ks2[b] == ks[b]);
                    } else if b == i {
                        assert(ks2[a] == ks[a] && ks[a] == old_es[a].0@);
                    } else if a == i {
                        assert(ks2[b] == ks[b - 1] && ks[b - 1] == old_es[b - 1].0@);
                    } else if a < i {
                        assert(ks2[a] == ks[a] && ks2[b] == ks[b - 1]);
                    } else {
                        assert(ks2[a] == ks[a - 1] && ks2[b] == ks[b - 1]);
                    }
                }
                assert forall|k: Seq<char>| #[trigger] ks2.contains(k) == (ks.contains(k) || k == kv) by {
                    if ks.contains(k) {
                        let j = choose|j: int| 0 <= j < ks.len() && ks[j] == k;
                        if j < i {
                            assert(ks2[j] == k);
                        } else {
                            assert(ks2[j + 1] == k);
                        }
                    }
                    if k == kv {
                        assert(ks2[i as int] == kv);
                    }
                    if ks2.contains(k) {
                        let j = choose|j: int| 0 <= j < ks2.len() && ks2[j] == k;
                        if j < i {
                            assert(ks[j] == k);
                        } else if j > i {
                            assert(ks[j - 1] == k);
                        }
                    }
                }
                assert(entries_map(es).dom() =~= entries_map(old_es).insert(kv, vv).dom());
                assert forall|k: Seq<char>| #[trigger] entries_map(es).contains_key(k) implies
                    entries_map(es)[k] == entries_map(old_es).insert(kv, vv)[k] by {
                    let j = choose|j: int| 0 <= j < ks2.len() && ks2[j] == k;
                    assert(ks2[j] == es[j].0@);
                    lemma_entry_lookup(es, j);
                    assert(strictly_sorted(ks2));
                    if j < i {
                        assert(es[j] == old_es[j]);
                        assert(ks[j] == k && ks[j] == old_es[j].0@);
                        lemma_entry_lookup(old_es, j);
                        assert(text_lt(ks2[j], ks2[i as int]));
                        lemma_text_lt_irreflexive(k);
                    } else if j > i {
                        assert(es[j] == old_es[j - 1]);
                        assert(ks[j - 1] == k && ks[j - 1] == old_es[j - 1].0@);
                        lemma_entry_lookup(old_es, j - 1);
                        assert(text_lt(ks2[i as int], ks2[j]));
                        lemma_text_lt_irreflexive(k);
                    } else {
                        assert(es[j].1@ == vv);
                        assert(k == kv);
                    }
                }
                assert(entries_map(es) =~= entries_map(old_es).insert(kv, vv));
            }
        },
    }
}


/// The keys of two strictly sorted entry sequences together, in increasing
/// order, each once.
pub fn union_keys<A: View, B: View>(a: &Vec<(String, A)>, b: &Vec<(String, B)>) -> (r: Vec<
    (String, bool),
>)
    requires
        strictly_sorted(entry_keys(a@)),
        strictly_sorted(entry_keys(b@)),
    ensures
        strictly_sorted(entry_keys(r@)),
        entry_keys(r@) == sorted_keys(entries_map(a@).dom() + entries_map(b@).dom()),
{
    let mut names: Vec<(String, bool)> = Vec::new();
    let ghost ka = entry_keys(a@);
    let ghost kb = entry_keys(b@);
    proof {
        lemma_entries_dom(a@);
        lemma_entries_dom(b@);
    }
    let mut i: usize = 0;
    assert(entries_map(names@).dom() =~= Set::<Seq<char>>::empty());
    while i < a.len()
        invariant
            0 <= i <= a@.len(),
            ka == entry_keys(a@),
            strictly_sorted(entry_keys(names@)),
            entries_map(names@).dom() =~= ka.take(i as int).to_set(),
        decreases a@.len() - i,
    {
        assert(ka[i as int] == a@[i as int].0@);
        put_entry(&mut names, a[i].0.clone(), true);
        assert(ka.take(i + 1) =~= ka.take(i as int).push(ka[i as int]));
        proof {
            lemma_push_to_set(ka.take(i as int), ka[i as int]);
        }
        i = i + 1;
    }
    assert(ka.take(i as int) =~= ka);
    let mut j: usize = 0;
    while j < b.len()
        invariant
            0 <= j <= b@.len(),
            kb == entry_keys(b@),
            strictly_sorted(entry_keys(names@)),
            entries_map(names@).dom() =~= ka.to_set() + kb.take(j as int).to_set(),
        decreases b@.len() - j,
    {
        assert(kb[j as int] == b@[j as int].0@);
        put_entry(&mut names, b[j].0.clone(), true);
        assert(kb.take(j + 1) =~= kb.take(j as int).push(kb[j as int]));
        proof {
            lemma_push_to_set(kb.take(j as int), kb[j as int]);
        }
        j = j + 1;
    }
    assert(kb.take(j as int) =~= kb);
    proof {
        lemma_entries_dom(names@);
    }
    names
}

} // verus!
