//! Records: the fields of one log line, keyed by name and held in key order,
//! with the raw line itself; the values they hold, how values compare and
//! render, and the alignment key and fingerprint of a record.
use vstd::prelude::*;

use crate::keys::{self, compare_text, locate, put_entry, union_keys, KeyOrder};
use crate::text::{self, i64_text, push_char, push_text};
use vstd::std_specs::cmp::PartialEqSpecImpl;

verus! {

/// A floating-point field value, held by the bits of the `f64` that it is
/// (by which values compare) and the text that `f64`'s `Display` writes for it.
#[derive(Debug)]
pub struct FloatValue {
    pub bits: u64,
    pub text: String,
}

impl FloatValue {
    pub fn new(bits: u64, text: String) -> (r: FloatValue)
        ensures
            r.bits == bits,
            r.text@ == text@,
    {
        FloatValue { bits, text }
    }
}

/// What a float reading gives, by the float's bits and text.
pub open spec fn float_view(f: Option<FloatValue>) -> Option<(u64, Seq<char>)> {
    match f {
        Some(v) => Some((v.bits, v.text@)),
        None => None,
    }
}

/// `read` may give `reading` for a text: floats are read by a function that
/// the caller hands in, since what a text means as a float is not computed here.
pub open spec fn float_read_by<F: Fn(&str) -> Option<FloatValue>>(
    read: F,
    text: Seq<char>,
    reading: Option<(u64, Seq<char>)>,
) -> bool {
    exists|s: &str, r: Option<FloatValue>|
        s@ == text && #[trigger] read.ensures((s,), r) && float_view(r) == reading
}

/// A float reader that gives the same reading for the same text.
pub open spec fn reads_floats_alike<F: Fn(&str) -> Option<FloatValue>>(read: F) -> bool {
    forall|s1: &str, s2: &str, r1: Option<FloatValue>, r2: Option<FloatValue>|
        s1@ == s2@ && #[trigger] read.ensures((s1,), r1) && #[trigger] read.ensures((s2,), r2)
            ==> float_view(r1) == float_view(r2)
}

/// Such a reader may give only one reading for a text.
pub proof fn lemma_float_reading_unique<F: Fn(&str) -> Option<FloatValue>>(
    read: F,
    text: Seq<char>,
    a: Option<(u64, Seq<char>)>,
    b: Option<(u64, Seq<char>)>,
)
    requires
        reads_floats_alike(read),
        float_read_by(read, text, a),
        float_read_by(read, text, b),
    ensures
        a == b,
{
    let (s1, r1) = choose|s: &str, r: Option<FloatValue>|
        s@ == text && #[trigger] read.ensures((s,), r) && float_view(r) == a;
    let (s2, r2) = choose|s: &str, r: Option<FloatValue>|
        s@ == text && #[trigger] read.ensures((s,), r) && float_view(r) == b;
    assert(read.ensures((s1,), r1) && read.ensures((s2,), r2));
}

/// Reads a text as a float with the function handed in.
pub fn read_float_text<F: Fn(&str) -> Option<FloatValue>>(read: &F, text: &str) -> (r: Option<
    FloatValue,
>)
    requires
        forall|s: &str| read.requires((s,)),
    ensures
        float_read_by(*read, text@, float_view(r)),
{
    let r = read(text);
    assert(read.ensures((text,), r));
    r
}

/// The value of one field.
#[derive(Debug)]
pub enum Value {
    Str(String),
    Int(i64),
    Float(FloatValue),
    Bool(bool),
    Null,
}

/// What a value holds, as the contracts speak of it.
pub enum ValueModel {
    Str(Seq<char>),
    Int(i64),
    Float(u64, Seq<char>),
    Bool(bool),
    Null,
}

impl View for Value {
    type V = ValueModel;

    open spec fn view(&self) -> ValueModel {
        match self {
            Value::Str(s) => ValueModel::Str(s@),
            Value::Int(i) => ValueModel::Int(*i),
            Value::Float(f) => ValueModel::Float(f.bits, f.text@),
            Value::Bool(b) => ValueModel::Bool(*b),
            Value::Null => ValueModel::Null,
        }
    }
}

/// Equality of values: texts, integers and booleans by what they hold,
/// floats by their bits, and `Null` equals only `Null`.
pub open spec fn value_eq(a: ValueModel, b: ValueModel) -> bool {
    match (a, b) {
        (ValueModel::Str(x), ValueModel::Str(y)) => x == y,
        (ValueModel::Int(x), ValueModel::Int(y)) => x == y,
        (ValueModel::Float(x, _), ValueModel::Float(y, _)) => x == y,
        (ValueModel::Bool(x), ValueModel::Bool(y)) => x == y,
        (ValueModel::Null, ValueModel::Null) => true,
        _ => false,
    }
}

/// The text of a boolean, as `bool`'s `Display` writes it.
pub open spec fn bool_text(b: bool) -> Seq<char> {
    if b {
        "true"@
    } else {
        "false"@
    }
}

/// The text by which a value takes part in an alignment key.
pub open spec fn key_text(v: ValueModel) -> Seq<char> {
    match v {
        ValueModel::Str(s) => s,
        ValueModel::Int(i) => text::int_text(i as int),
        ValueModel::Float(_, t) => t,
        ValueModel::Bool(b) => bool_text(b),
        ValueModel::Null => Seq::empty(),
    }
}

/// The text of a value in a fingerprint: texts in double quotes.
pub open spec fn canonical_text(v: ValueModel) -> Seq<char> {
    match v {
        ValueModel::Str(s) => seq!['"'] + s + seq!['"'],
        ValueModel::Int(i) => text::int_text(i as int),
        ValueModel::Float(_, t) => t,
        ValueModel::Bool(b) => bool_text(b),
        ValueModel::Null => "null"@,
    }
}

/// A string holding the given text.
pub fn text_of(t: &str) -> (r: String)
    ensures
        r@ == t@,
{
    let mut r = String::new();
    push_text(&mut r, t);
    r
}

fn bool_string(b: bool) -> (r: String)
    ensures
        r@ == bool_text(b),
{
    if b {
        text_of("true")
    } else {
        text_of("false")
    }
}

impl Clone for FloatValue {
    fn clone(&self) -> (r: Self)
        ensures
            r.bits == self.bits,
            r.text@ == self.text@,
    {
        FloatValue { bits: self.bits, text: self.text.clone() }
    }
}

impl Clone for Value {
    fn clone(&self) -> (r: Self)
        ensures
            r@ == self@,
    {
        match self {
            Value::Str(s) => Value::Str(s.clone()),
            Value::Int(i) => Value::Int(*i),
            Value::Float(f) => Value::Float(f.clone()),
            Value::Bool(b) => Value::Bool(*b),
            Value::Null => Value::Null,
        }
    }
}

impl Value {
    /// Whether two values are equal: floats compare by their bits.
    pub fn equals(&self, other: &Value) -> (r: bool)
        ensures
            r == value_eq(self@, other@),
    {
        match (self, other) {
            (Value::Str(a), Value::Str(b)) => *a == *b,
            (Value::Int(a), Value::Int(b)) => *a == *b,
            (Value::Float(a), Value::Float(b)) => a.bits == b.bits,
            (Value::Bool(a), Value::Bool(b)) => *a == *b,
            (Value::Null, Value::Null) => true,
            _ => false,
        }
    }

    /// The text by which the value takes part in an alignment key.
    pub fn as_key_string(&self) -> (r: String)
        ensures
            r@ == key_text(self@),
    {
        match self {
            Value::Str(s) => s.clone(),
            Value::Int(i) => i64_text(*i),
            Value::Float(f) => f.text.clone(),
            Value::Bool(b) => bool_string(*b),
            Value::Null => String::new(),
        }
    }
}

/// Appends the fingerprint text of a value.
pub fn write_value_canonical(out: &mut String, value: &Value)
    ensures
        final(out)@ == old(out)@ + canonical_text(value@),
{
    match value {
        Value::Str(s) => {
            push_char(out, '"');
            push_text(out, s.as_str());
            push_char(out, '"');
            assert(final(out)@ =~= old(out)@ + canonical_text(value@));
        },
        Value::Int(i) => {
            let t = i64_text(*i);
            push_text(out, t.as_str());
        },
        Value::Float(f) => {
            push_text(out, f.text.as_str());
        },
        Value::Bool(b) => {
            let t = bool_string(*b);
            push_text(out, t.as_str());
        },
        Value::Null => {
            push_text(out, "null");
        },
    }
}


/// The fields of a record: names mapped to values, held in increasing order
/// of name (the order of `str`), each name once.
#[derive(Debug)]
pub struct FieldMap {
    entries: Vec<(String, Value)>,
}

impl View for FieldMap {
    type V = Map<Seq<char>, ValueModel>;

    closed spec fn view(&self) -> Map<Seq<char>, ValueModel> {
        keys::entries_map(self.entries@)
    }
}

/// Two field maps are equal when they have the same names and equal values.
pub open spec fn fields_eq(a: Map<Seq<char>, ValueModel>, b: Map<Seq<char>, ValueModel>) -> bool {
    &&& a.dom() == b.dom()
    &&& forall|k: Seq<char>| #[trigger] a.contains_key(k) ==> value_eq(a[k], b[k])
}

impl FieldMap {
    #[verifier::type_invariant]
    spec fn names_in_order(self) -> bool {
        keys::strictly_sorted(keys::entry_keys(self.entries@))
    }

    /// The names in increasing order.
    pub closed spec fn names(&self) -> Seq<Seq<char>> {
        keys::entry_keys(self.entries@)
    }

    proof fn lemma_view(&self)
        requires
            keys::strictly_sorted(keys::entry_keys(self.entries@)),
        ensures
            self.names() == keys::sorted_keys(self@.dom()),
            self@.dom() == self.names().to_set(),
            self@.dom().finite(),
            keys::strictly_sorted(self.names()),
            self.names().len() == self.entries@.len(),
            forall|i: int|
                0 <= i < self.entries@.len() ==> self.names()[i] == #[trigger] self.entries@[i].0@,
            forall|i: int|
                0 <= i < self.entries@.len() ==> #[trigger] self@[self.entries@[i].0@]
                    == self.entries@[i].1@,
    {
        keys::lemma_entries_dom(self.entries@);
        assert forall|i: int| 0 <= i < self.entries@.len() implies #[trigger] self@[
            self.entries@[i].0@]
            == self.entries@[i].1@ by {
            keys::lemma_entry_lookup(self.entries@, i);
        }
    }

    /// No fields.
    pub fn new() -> (r: FieldMap)
        ensures
            r@ == Map::<Seq<char>, ValueModel>::empty(),
    {
        let r = FieldMap { entries: Vec::new() };
        assert(r@ =~= Map::<Seq<char>, ValueModel>::empty());
        r
    }

    /// Sets a field, replacing the value of a field of that name.
    pub fn insert(&mut self, key: String, value: Value)
        ensures
            final(self)@ == old(self)@.insert(key@, value@),
    {
        proof {
            use_type_invariant(&*self);
        }
        let mut entries: Vec<(String, Value)> = Vec::new();
        std::mem::swap(&mut entries, &mut self.entries);
        put_entry(&mut entries, key, value);
        self.entries = entries;
    }

    /// The value of a field, if the record has it.
    pub fn get(&self, key: &str) -> (r: Option<&Value>)
        ensures
            match r {
                Some(v) => self@.contains_key(key@) && v@ == self@[key@],
                None => !self@.contains_key(key@),
            },
    {
        proof {
            use_type_invariant(self);
            self.lemma_view();
        }
        match locate(&self.entries, key) {
            Ok(i) => Some(&self.entries[i].1),
            Err(_) => None,
        }
    }

    /// Whether there are no fields.
    pub fn is_empty(&self) -> (r: bool)
        ensures
            r == (self@.dom() == Set::<Seq<char>>::empty()),
    {
        proof {
            use_type_invariant(self);
            self.lemma_view();
            if self.entries@.len() > 0 {
                assert(self@.dom().contains(self.entries@[0].0@));
            } else {
                assert(self@.dom() =~= Set::<Seq<char>>::empty());
            }
        }
        self.entries.len() == 0
    }

    /// The number of fields.
    pub fn len(&self) -> (r: usize)
        ensures
            r == self@.dom().len(),
            self@.dom().finite(),
    {
        proof {
            use_type_invariant(self);
            self.lemma_view();
            let ns = self.names();
            assert(ns.no_duplicates()) by {
                assert forall|i: int, j: int| 0 <= i < ns.len() && 0 <= j < ns.len() && i != j
                    implies ns[i] != ns[j] by {
                    if ns[i] == ns[j] {
                        keys::lemma_text_lt_irreflexive(ns[i]);
                    }
                }
            }
            ns.unique_seq_to_set();
        }
        self.entries.len()
    }

    /// The name and value of the field at a position in name order.
    pub fn entry(&self, i: usize) -> (r: (&String, &Value))
        requires
            i < self@.dom().len(),
        ensures
            r.0@ == keys::sorted_keys(self@.dom())[i as int],
            self@.contains_key(r.0@),
            r.1@ == self@[r.0@],
    {
        proof {
            use_type_invariant(self);
            self.lemma_view();
            let ns = self.names();
            assert(ns.no_duplicates()) by {
                assert forall|a: int, b: int| 0 <= a < ns.len() && 0 <= b < ns.len() && a != b
                    implies ns[a] != ns[b] by {
                    if ns[a] == ns[b] {
                        keys::lemma_text_lt_irreflexive(ns[a]);
                    }
                }
            }
            ns.unique_seq_to_set();
            assert(ns.to_set().contains(ns[i as int]));
        }
        (&self.entries[i].0, &self.entries[i].1)
    }

    /// The names of the fields, in increasing order.
    pub fn keys(&self) -> (r: Vec<String>)
        ensures
            text_seq(r@) == keys::sorted_keys(self@.dom()),
    {
        proof {
            use_type_invariant(self);
            self.lemma_view();
        }
        let mut r: Vec<String> = Vec::new();
        let mut i: usize = 0;
        while i < self.entries.len()
            invariant
                0 <= i <= self.entries@.len(),
                self.names().len() == self.entries@.len(),
                forall|j: int|
                    0 <= j < self.entries@.len() ==> self.names()[j] == #[trigger] self.entries@[j].0@,
                text_seq(r@) =~= self.names().take(i as int),
                r@.len() == i,
            decreases self.entries@.len() - i,
        {
            let ghost before = r@;
            r.push(self.entries[i].0.clone());
            assert(r@ == before.push(r@[i as int]));
            assert(self.names().take(i + 1) =~= self.names().take(i as int).push(
                self.names()[i as int],
            ));
            assert(text_seq(r@) =~= text_seq(before).push(r@[i as int]@));
            i = i + 1;
        }
        assert(self.names().take(i as int) =~= self.names());
        r
    }

    /// Whether two field maps have the same names with equal values.
    pub fn equals(&self, other: &FieldMap) -> (r: bool)
        ensures
            r == fields_eq(self@, other@),
    {
        proof {
            use_type_invariant(self);
            use_type_invariant(other);
            self.lemma_view();
            other.lemma_view();
        }
        if self.entries.len() != other.entries.len() {
            proof {
                if self@.dom() == other@.dom() {
                    keys::lemma_sorted_unique(self.names(), other.names());
                }
            }
            return false;
        }
        let n = self.entries.len();
        let mut i: usize = 0;
        while i < n
            invariant
                0 <= i <= n,
                n == self.entries@.len(),
                n == other.entries@.len(),
                forall|j: int| 0 <= j < i ==> self.names()[j] == other.names()[j],
                forall|j: int| 0 <= j < i ==> value_eq(
                    #[trigger] self.entries@[j].1@,
                    other.entries@[j].1@,
                ),
                self.names().len() == n,
                other.names().len() == n,
                forall|j: int| 0 <= j < n ==> self.names()[j] == #[trigger] self.entries@[j].0@,
                forall|j: int| 0 <= j < n ==> other.names()[j] == #[trigger] other.entries@[j].0@,
                keys::strictly_sorted(self.names()),
                keys::strictly_sorted(other.names()),
                self@.dom() == self.names().to_set(),
                other@.dom() == other.names().to_set(),
                forall|j: int|
                    0 <= j < n ==> #[trigger] self@[self.entries@[j].0@] == self.entries@[j].1@,
                forall|j: int|
                    0 <= j < n ==> #[trigger] other@[other.entries@[j].0@] == other.entries@[j].1@,
            decreases n - i,
        {
            if self.entries[i].0 != other.entries[i].0 {
                proof {
                    if self@.dom() == other@.dom() {
                        keys::lemma_sorted_unique(self.names(), other.names());
                    }
                }
                return false;
            }
            if !self.entries[i].1.equals(&other.entries[i].1) {
                proof {
                    let k = self.entries@[i as int].0@;
                    assert(self@[k] == self.entries@[i as int].1@);
                    assert(other@[k] == other.entries@[i as int].1@);
                    assert(self@.contains_key(k));
                }
                return false;
            }
            i = i + 1;
        }
        proof {
            assert(self.names() =~= other.names());
            assert forall|k: Seq<char>| #[trigger] self@.contains_key(k) implies value_eq(
                self@[k],
                other@[k],
            ) by {
                let j = choose|j: int| 0 <= j < n && self.names()[j] == k;
                assert(self@[self.entries@[j].0@] == self.entries@[j].1@);
                assert(other@[other.entries@[j].0@] == other.entries@[j].1@);
            }
        }
        true
    }
}

impl Clone for FieldMap {
    fn clone(&self) -> (r: Self)
        ensures
            r@ == self@,
    {
        proof {
            use_type_invariant(self);
        }
        let mut entries: Vec<(String, Value)> = Vec::new();
        let mut i: usize = 0;
        while i < self.entries.len()
            invariant
                0 <= i <= self.entries@.len(),
                entries@.len() == i,
                forall|j: int| 0 <= j < i ==> (#[trigger] entries@[j]).0@ == self.entries@[j].0@
                    && entries@[j].1@ == self.entries@[j].1@,
            decreases self.entries@.len() - i,
        {
            let k = self.entries[i].0.clone();
            let v = self.entries[i].1.clone();
            entries.push((k, v));
            i = i + 1;
        }
        proof {
            assert(keys::entry_keys(entries@) =~= keys::entry_keys(self.entries@));
            assert forall|k: Seq<char>| #[trigger] keys::entries_map(entries@).contains_key(k)
                implies keys::entries_map(entries@)[k] == keys::entries_map(self.entries@)[k] by {
                let j = choose|j: int| 0 <= j < entries@.len() && keys::entry_keys(entries@)[j] == k;
                keys::lemma_entry_lookup(entries@, j);
                keys::lemma_entry_lookup(self.entries@, j);
            }
            assert(keys::entries_map(entries@) =~= keys::entries_map(self.entries@));
        }
        FieldMap { entries }
    }
}

/// The texts of a sequence of strings.
pub open spec fn text_seq(v: Seq<String>) -> Seq<Seq<char>> {
    v.map_values(|s: String| s@)
}


/// One log line: its fields and its raw text.
#[derive(Debug)]
pub struct Record {
    pub fields: FieldMap,
    pub raw: String,
}

/// What a record holds, as the contracts speak of it.
pub struct RecordModel {
    pub fields: Map<Seq<char>, ValueModel>,
    pub raw: Seq<char>,
}

impl View for Record {
    type V = RecordModel;

    open spec fn view(&self) -> RecordModel {
        RecordModel { fields: self.fields@, raw: self.raw@ }
    }
}

/// Records are equal when their fields are equal and their raw texts are the same.
pub open spec fn record_eq(a: RecordModel, b: RecordModel) -> bool {
    fields_eq(a.fields, b.fields) && a.raw == b.raw
}

impl Record {
    pub fn new(fields: FieldMap, raw: String) -> (r: Record)
        ensures
            r@.fields == fields@,
            r@.raw == raw@,
    {
        Record { fields, raw }
    }

    /// Whether two records have equal fields and the same raw text.
    pub fn equals(&self, other: &Record) -> (r: bool)
        ensures
            r == record_eq(self@, other@),
    {
        self.fields.equals(&other.fields) && self.raw == other.raw
    }
}

impl Clone for Record {
    fn clone(&self) -> (r: Self)
        ensures
            r@ == self@,
    {
        Record { fields: self.fields.clone(), raw: self.raw.clone() }
    }
}

impl PartialEq for Value {
    fn eq(&self, other: &Value) -> (r: bool) {
        self.equals(other)
    }
}

impl Eq for Value {}

impl PartialEqSpecImpl for Value {
    open spec fn obeys_eq_spec() -> bool {
        true
    }

    open spec fn eq_spec(&self, other: &Value) -> bool {
        value_eq(self@, other@)
    }
}

impl PartialEq for FieldMap {
    fn eq(&self, other: &FieldMap) -> (r: bool) {
        self.equals(other)
    }
}

impl Eq for FieldMap {}

impl PartialEqSpecImpl for FieldMap {
    open spec fn obeys_eq_spec() -> bool {
        true
    }

    open spec fn eq_spec(&self, other: &FieldMap) -> bool {
        fields_eq(self@, other@)
    }
}

impl PartialEq for Record {
    fn eq(&self, other: &Record) -> (r: bool) {
        self.equals(other)
    }
}

impl Eq for Record {}

impl PartialEqSpecImpl for Record {
    open spec fn obeys_eq_spec() -> bool {
        true
    }

    open spec fn eq_spec(&self, other: &Record) -> bool {
        record_eq(self@, other@)
    }
}

/// A result whose texts are taken by their characters.
pub open spec fn text_result(r: Result<String, String>) -> Result<Seq<char>, Seq<char>> {
    match r {
        Ok(s) => Ok(s@),
        Err(e) => Err(e@),
    }
}

/// The error for a record that lacks a key field.
pub open spec fn missing_field_message(field: Seq<char>) -> Seq<char> {
    "missing key field '"@ + field + "' in record"@
}

/// The key texts of the named fields, in the order named, or the error for
/// the first named field that the record lacks.
pub open spec fn key_parts(fields: Map<Seq<char>, ValueModel>, names: Seq<Seq<char>>) -> Result<
    Seq<Seq<char>>,
    Seq<char>,
>
    decreases names.len(),
{
    if names.len() == 0 {
        Ok(Seq::empty())
    } else {
        match key_parts(fields, names.drop_last()) {
            Err(e) => Err(e),
            Ok(parts) => if fields.contains_key(names.last()) {
                Ok(parts.push(key_text(fields[names.last()])))
            } else {
                Err(missing_field_message(names.last()))
            },
        }
    }
}

/// Texts joined with a separator between each two (`[String]::join`).
pub open spec fn joined(parts: Seq<Seq<char>>, sep: Seq<char>) -> Seq<char>
    decreases parts.len(),
{
    if parts.len() == 0 {
        Seq::empty()
    } else if parts.len() == 1 {
        parts[0]
    } else {
        joined(parts.drop_last(), sep) + sep + parts.last()
    }
}

/// The separator between the parts of a composite key.
pub open spec fn key_separator() -> Seq<char> {
    seq!['\x1f']
}

/// The fingerprint text of the fields at the given names, in that order:
/// `name=value` and a record separator for each name not excluded.
pub open spec fn fingerprint_over(
    names: Seq<Seq<char>>,
    fields: Map<Seq<char>, ValueModel>,
    exclude: Seq<Seq<char>>,
) -> Seq<char>
    decreases names.len(),
{
    if names.len() == 0 {
        Seq::empty()
    } else {
        let k = names.last();
        fingerprint_over(names.drop_last(), fields, exclude) + if exclude.contains(k) {
            Seq::empty()
        } else {
            k + seq!['='] + canonical_text(fields[k]) + seq!['\x1e']
        }
    }
}

/// The fingerprint of a record's fields: all fields in name order, but the excluded.
pub open spec fn fingerprint_text(fields: Map<Seq<char>, ValueModel>, exclude: Seq<Seq<char>>) -> Seq<
    char,
> {
    fingerprint_over(keys::sorted_keys(fields.dom()), fields, exclude)
}

/// The alignment key of a record: with no key fields its fingerprint; else
/// the key texts of the key fields joined with the unit separator, or the
/// error for the first key field that it lacks.
pub open spec fn record_key_text(r: RecordModel, key_fields: Seq<Seq<char>>) -> Result<
    Seq<char>,
    Seq<char>,
> {
    if key_fields.len() == 0 {
        Ok(fingerprint_text(r.fields, Seq::empty()))
    } else {
        match key_parts(r.fields, key_fields) {
            Ok(parts) => Ok(joined(parts, key_separator())),
            Err(e) => Err(e),
        }
    }
}

/// The keys among `names`, in that order, that are not excluded.
pub open spec fn names_outside(names: Seq<Seq<char>>, exclude: Seq<Seq<char>>) -> Seq<Seq<char>>
    decreases names.len(),
{
    if names.len() == 0 {
        Seq::empty()
    } else {
        let prev = names_outside(names.drop_last(), exclude);
        if exclude.contains(names.last()) {
            prev
        } else {
            prev.push(names.last())
        }
    }
}

proof fn lemma_fingerprint_over_outside(
    names: Seq<Seq<char>>,
    fields: Map<Seq<char>, ValueModel>,
    exclude: Seq<Seq<char>>,
)
    ensures
        fingerprint_over(names, fields, exclude) == fingerprint_over(
            names_outside(names, exclude),
            fields,
            Seq::empty(),
        ),
    decreases names.len(),
{
    if names.len() > 0 {
        lemma_fingerprint_over_outside(names.drop_last(), fields, exclude);
        let prev = names_outside(names.drop_last(), exclude);
        if !exclude.contains(names.last()) {
            assert(prev.push(names.last()).drop_last() =~= prev);
        }
        assert(fingerprint_over(names, fields, exclude) =~= fingerprint_over(
            names_outside(names, exclude),
            fields,
            Seq::empty(),
        ));
    }
}

proof fn lemma_names_outside_sorted(names: Seq<Seq<char>>, exclude: Seq<Seq<char>>)
    requires
        keys::strictly_sorted(names),
    ensures
        keys::strictly_sorted(names_outside(names, exclude)),
        names_outside(names, exclude).to_set() == names.to_set().difference(exclude.to_set()),
        forall|i: int|
            0 <= i < names_outside(names, exclude).len() ==> names.contains(
                #[trigger] names_outside(names, exclude)[i],
            ),
    decreases names.len(),
{
    if names.len() > 0 {
        let front = names.drop_last();
        assert(keys::strictly_sorted(front)) by {
            assert forall|i: int, j: int| 0 <= i < j < front.len() implies keys::text_lt(
                #[trigger] front[i],
                #[trigger] front[j],
            ) by {
                assert(front[i] == names[i] && front[j] == names[j]);
            }
        }
        lemma_names_outside_sorted(front, exclude);
        let prev = names_outside(front, exclude);
        let last = names.last();
        assert forall|i: int| 0 <= i < prev.len() implies names.contains(#[trigger] prev[i]) by {
            let j = choose|j: int| 0 <= j < front.len() && front[j] == prev[i];
            assert(names[j] == prev[i]);
        }
        assert(names.contains(last)) by {
            assert(names[names.len() - 1] == last);
        }
        if !exclude.contains(last) {
            let cur = prev.push(last);
            assert forall|i: int, j: int| 0 <= i < j < cur.len() implies keys::text_lt(
                #[trigger] cur[i],
                #[trigger] cur[j],
            ) by {
                if j == prev.len() {
                    let k = choose|k: int| 0 <= k < front.len() && front[k] == prev[i];
                    assert(names[k] == prev[i]);
                    assert(keys::text_lt(names[k], names[names.len() - 1]));
                } else {
                    assert(cur[i] == prev[i] && cur[j] == prev[j]);
                }
            }
            keys::lemma_push_to_set(prev, last);
        }
        keys::lemma_push_to_set(front, last);
        assert(names =~= front.push(last));
        assert(names_outside(names, exclude).to_set() =~= names.to_set().difference(
            exclude.to_set(),
        ));
        assert forall|i: int| 0 <= i < names_outside(names, exclude).len() implies names.contains(
            #[trigger] names_outside(names, exclude)[i],
        ) by {
            if i < prev.len() {
                assert(names_outside(names, exclude)[i] == prev[i]);
            }
        }
    }
}

proof fn lemma_fingerprint_over_same_values(
    names: Seq<Seq<char>>,
    a: Map<Seq<char>, ValueModel>,
    b: Map<Seq<char>, ValueModel>,
)
    requires
        forall|i: int| 0 <= i < names.len() ==> a[#[trigger] names[i]] == b[names[i]],
    ensures
        fingerprint_over(names, a, Seq::empty()) == fingerprint_over(names, b, Seq::empty()),
    decreases names.len(),
{
    if names.len() > 0 {
        let front = names.drop_last();
        assert forall|i: int| 0 <= i < front.len() implies a[#[trigger] front[i]] == b[front[i]] by {
            assert(front[i] == names[i]);
        }
        lemma_fingerprint_over_same_values(front, a, b);
        assert(a[names[names.len() - 1]] == b[names[names.len() - 1]]);
    }
}

/// The fingerprint of fields, excluding some names, is that of the fields
/// without those names, excluding none.
proof fn lemma_fingerprint_as_remaining(fields: Map<Seq<char>, ValueModel>, exclude: Seq<Seq<char>>)
    requires
        fields.dom().finite(),
    ensures
        fingerprint_text(fields, exclude) == fingerprint_over(
            keys::sorted_keys(fields.dom().difference(exclude.to_set())),
            fields,
            Seq::empty(),
        ),
{
    keys::lemma_sorted_keys_exist(fields.dom());
    let ks = keys::sorted_keys(fields.dom());
    lemma_fingerprint_over_outside(ks, fields, exclude);
    lemma_names_outside_sorted(ks, exclude);
    keys::lemma_sorted_keys_of(names_outside(ks, exclude));
}

/// A fingerprint depends only on the fields that are not excluded: two field
/// maps with the same names outside `exclude`, and the same values at those
/// names, have the same fingerprint; and it is the fingerprint, excluding
/// nothing, of the fields with the excluded names removed.
pub proof fn lemma_fingerprint_outside_exclude(
    a: Map<Seq<char>, ValueModel>,
    b: Map<Seq<char>, ValueModel>,
    exclude: Seq<Seq<char>>,
)
    requires
        a.dom().finite(),
        b.dom().finite(),
        forall|k: Seq<char>| !exclude.contains(k) ==> (#[trigger] a.contains_key(k) <==> b.contains_key(k)),
        forall|k: Seq<char>| !exclude.contains(k) && #[trigger] a.contains_key(k) ==> a[k] == b[k],
    ensures
        fingerprint_text(a, exclude) == fingerprint_text(b, exclude),
        fingerprint_text(a, exclude) == fingerprint_text(
            a.remove_keys(exclude.to_set()),
            Seq::empty(),
        ),
{
    let ex = exclude.to_set();
    let rest = a.dom().difference(ex);
    assert(rest =~= b.dom().difference(ex)) by {
        assert forall|k: Seq<char>| rest.contains(k) == b.dom().difference(ex).contains(k) by {
            if !ex.contains(k) {
                assert(!exclude.contains(k));
            } else {
                let i = choose|i: int| 0 <= i < exclude.len() && exclude[i] == k;
                assert(exclude.contains(k));
            }
        }
    }
    lemma_fingerprint_as_remaining(a, exclude);
    lemma_fingerprint_as_remaining(b, exclude);
    keys::lemma_sorted_keys_exist(rest);
    let ks = keys::sorted_keys(rest);
    assert forall|i: int| 0 <= i < ks.len() implies a[#[trigger] ks[i]] == b[ks[i]] by {
        assert(ks.to_set().contains(ks[i]));
        assert(!exclude.contains(ks[i]));
    }
    lemma_fingerprint_over_same_values(ks, a, b);
    let r = a.remove_keys(ex);
    assert(r.dom() =~= rest);
    assert(rest.finite());
    lemma_fingerprint_as_remaining(r, Seq::empty());
    assert(r.dom().difference(Seq::<Seq<char>>::empty().to_set()) =~= rest);
    assert forall|i: int| 0 <= i < ks.len() implies a[#[trigger] ks[i]] == r[ks[i]] by {
        assert(ks.to_set().contains(ks[i]));
    }
    lemma_fingerprint_over_same_values(ks, a, r);
}

proof fn lemma_key_parts_error_stays(
    fields: Map<Seq<char>, ValueModel>,
    names: Seq<Seq<char>>,
    j: int,
)
    requires
        0 <= j <= names.len(),
        key_parts(fields, names.take(j)) is Err,
    ensures
        key_parts(fields, names) == key_parts(fields, names.take(j)),
    decreases names.len() - j,
{
    if j < names.len() {
        assert(names.take(j + 1).drop_last() =~= names.take(j));
        lemma_key_parts_error_stays(fields, names, j + 1);
    } else {
        assert(names.take(j) =~= names);
    }
}

/// Whether a list of names holds a name.
pub fn contains_text(list: &[String], name: &str) -> (r: bool)
    ensures
        r == text_seq(list@).contains(name@),
{
    let mut i: usize = 0;
    while i < list.len()
        invariant
            0 <= i <= list@.len(),
            forall|j: int| 0 <= j < i ==> list@[j]@ != name@,
        decreases list@.len() - i,
    {
        if compare_text(list[i].as_str(), name) == KeyOrder::Same {
            assert(text_seq(list@)[i as int] == name@);
            return true;
        }
        i = i + 1;
    }
    proof {
        if text_seq(list@).contains(name@) {
            let j = choose|j: int| 0 <= j < list@.len() && text_seq(list@)[j] == name@;
            assert(list@[j]@ == name@);
        }
    }
    false
}

/// The fingerprint of a record: each field not excluded, in name order, as
/// `name=value` followed by a record separator, texts in double quotes.
pub fn fingerprint(record: &Record, exclude: &[String]) -> (r: String)
    ensures
        r@ == fingerprint_text(record@.fields, text_seq(exclude@)),
{
    let fields = &record.fields;
    proof {
        use_type_invariant(fields);
        fields.lemma_view();
    }
    let ghost names = fields.names();
    let ghost ex = text_seq(exclude@);
    let mut out = String::new();
    let mut i: usize = 0;
    assert(names.take(0) =~= Seq::<Seq<char>>::empty());
    while i < fields.entries.len()
        invariant
            0 <= i <= fields.entries@.len(),
            names.len() == fields.entries@.len(),
            names == fields.names(),
            ex == text_seq(exclude@),
            forall|j: int| 0 <= j < names.len() ==> names[j] == #[trigger] fields.entries@[j].0@,
            forall|j: int|
                0 <= j < names.len() ==> #[trigger] fields@[fields.entries@[j].0@]
                    == fields.entries@[j].1@,
            out@ == fingerprint_over(names.take(i as int), fields@, ex),
        decreases fields.entries@.len() - i,
    {
        let key = &fields.entries[i].0;
        let value = &fields.entries[i].1;
        assert(names.take(i + 1).drop_last() =~= names.take(i as int));
        assert(names.take(i + 1).last() == key@);
        if !contains_text(exclude, key.as_str()) {
            push_text(&mut out, key.as_str());
            push_char(&mut out, '=');
            write_value_canonical(&mut out, value);
            push_char(&mut out, '\x1e');
        }
        i = i + 1;
    }
    assert(names.take(i as int) =~= names);
    out
}

/// The alignment key of a record: the fingerprint when no key fields are
/// given, else the key texts of the key fields joined with `\x1f`.
pub fn record_key(record: &Record, key_fields: &[String]) -> (r: Result<String, String>)
    ensures
        text_result(r) == record_key_text(record@, text_seq(key_fields@)),
{
    if key_fields.len() == 0 {
        let empty: Vec<String> = Vec::new();
        assert(text_seq(empty@) =~= Seq::<Seq<char>>::empty());
        return Ok(fingerprint(record, empty.as_slice()));
    }
    let ghost names = text_seq(key_fields@);
    let mut parts: Vec<String> = Vec::new();
    let mut i: usize = 0;
    assert(names.take(0) =~= Seq::<Seq<char>>::empty());
    assert(text_seq(parts@) =~= Seq::<Seq<char>>::empty());
    while i < key_fields.len()
        invariant
            0 <= i <= key_fields@.len(),
            names == text_seq(key_fields@),
            key_parts(record@.fields, names.take(i as int)) == Ok::<Seq<Seq<char>>, Seq<char>>(
                text_seq(parts@),
            ),
            parts@.len() == i,
        decreases key_fields@.len() - i,
    {
        let field = &key_fields[i];
        assert(names.take(i + 1).drop_last() =~= names.take(i as int));
        assert(names.take(i + 1).last() == field@);
        match record.fields.get(field.as_str()) {
            Some(value) => {
                let ghost before = parts@;
                parts.push(value.as_key_string());
                assert(text_seq(parts@) =~= text_seq(before).push(parts@[i as int]@));
            },
            None => {
                let mut msg = text_of("missing key field '");
                push_text(&mut msg, field.as_str());
                push_text(&mut msg, "' in record");
                proof {
                    lemma_key_parts_error_stays(record@.fields, names, i + 1);
                }
                return Err(msg);
            },
        }
        i = i + 1;
    }
    assert(names.take(i as int) =~= names);
    let mut out = String::new();
    let mut j: usize = 0;
    let ghost ps = text_seq(parts@);
    assert(ps.take(0) =~= Seq::<Seq<char>>::empty());
    while j < parts.len()
        invariant
            0 <= j <= parts@.len(),
            ps == text_seq(parts@),
            out@ == joined(ps.take(j as int), key_separator()),
        decreases parts@.len() - j,
    {
        assert(ps.take(j + 1).drop_last() =~= ps.take(j as int));
        if j > 0 {
            push_char(&mut out, '\x1f');
        } else {
            assert(out@ =~= Seq::<char>::empty());
        }
        push_text(&mut out, parts[j].as_str());
        j = j + 1;
    }
    assert(ps.take(j as int) =~= ps);
    Ok(out)
}

/// Whether a field is the same in two field maps: equal values, or absent from both.
pub open spec fn same_field(
    l: Map<Seq<char>, ValueModel>,
    r: Map<Seq<char>, ValueModel>,
    k: Seq<char>,
) -> bool {
    if l.contains_key(k) && r.contains_key(k) {
        value_eq(l[k], r[k])
    } else {
        l.contains_key(k) == r.contains_key(k)
    }
}

/// The names among `names`, in that order, of the fields that differ.
pub open spec fn differing_names(
    names: Seq<Seq<char>>,
    l: Map<Seq<char>, ValueModel>,
    r: Map<Seq<char>, ValueModel>,
) -> Seq<Seq<char>>
    decreases names.len(),
{
    if names.len() == 0 {
        Seq::empty()
    } else {
        let prev = differing_names(names.drop_last(), l, r);
        if same_field(l, r, names.last()) {
            prev
        } else {
            prev.push(names.last())
        }
    }
}

/// The names of the fields that differ between two field maps, in name order:
/// those in only one of them, and those whose values are not equal.
pub open spec fn changed_field_names(
    l: Map<Seq<char>, ValueModel>,
    r: Map<Seq<char>, ValueModel>,
) -> Seq<Seq<char>> {
    differing_names(keys::sorted_keys(l.dom() + r.dom()), l, r)
}

proof fn lemma_differing_names_symmetric(
    names: Seq<Seq<char>>,
    l: Map<Seq<char>, ValueModel>,
    r: Map<Seq<char>, ValueModel>,
)
    ensures
        differing_names(names, l, r) == differing_names(names, r, l),
    decreases names.len(),
{
    if names.len() > 0 {
        lemma_differing_names_symmetric(names.drop_last(), l, r);
    }
}

/// The fields that differ between two field maps are the same whichever
/// side is named first.
pub proof fn lemma_changed_field_names_symmetric(
    l: Map<Seq<char>, ValueModel>,
    r: Map<Seq<char>, ValueModel>,
)
    ensures
        changed_field_names(l, r) == changed_field_names(r, l),
{
    assert(l.dom() + r.dom() =~= r.dom() + l.dom());
    lemma_differing_names_symmetric(keys::sorted_keys(l.dom() + r.dom()), l, r);
}

proof fn lemma_differing_names_contains(
    names: Seq<Seq<char>>,
    l: Map<Seq<char>, ValueModel>,
    r: Map<Seq<char>, ValueModel>,
    k: Seq<char>,
)
    ensures
        differing_names(names, l, r).contains(k) <==> names.contains(k) && !same_field(l, r, k),
    decreases names.len(),
{
    if names.len() > 0 {
        let front = names.drop_last();
        lemma_differing_names_contains(front, l, r, k);
        let prev = differing_names(front, l, r);
        if !same_field(l, r, names.last()) {
            if prev.push(names.last()).contains(k) {
                let i = choose|i: int| 0 <= i < prev.len() + 1 && prev.push(names.last())[i] == k;
                if i < prev.len() {
                    assert(prev[i] == k);
                }
            }
            if prev.contains(k) {
                let i = choose|i: int| 0 <= i < prev.len() && prev[i] == k;
                assert(prev.push(names.last())[i] == k);
            }
            assert(prev.push(names.last())[prev.len() as int] == names.last());
        }
        if names.contains(k) {
            let i = choose|i: int| 0 <= i < names.len() && names[i] == k;
            if i < names.len() - 1 {
                assert(front[i] == k);
            }
        }
        if front.contains(k) {
            let i = choose|i: int| 0 <= i < front.len() && front[i] == k;
            assert(names[i] == k);
        }
    }
}

/// A field is listed as changed exactly when one of the two field maps has
/// it and the other lacks it or holds a value that is not equal.
pub proof fn lemma_changed_field_names_members(
    l: Map<Seq<char>, ValueModel>,
    r: Map<Seq<char>, ValueModel>,
    k: Seq<char>,
)
    requires
        l.dom().finite(),
        r.dom().finite(),
    ensures
        changed_field_names(l, r).contains(k) <==> (l.contains_key(k) || r.contains_key(k))
            && !same_field(l, r, k),
{
    keys::lemma_sorted_keys_exist(l.dom() + r.dom());
    let ks = keys::sorted_keys(l.dom() + r.dom());
    lemma_differing_names_contains(ks, l, r, k);
    assert(ks.contains(k) == ks.to_set().contains(k));
}

/// Value equality is identity of what the values hold, but for floats, which
/// are equal when their bits are.
pub proof fn lemma_value_eq_identity(a: ValueModel, b: ValueModel)
    ensures
        !(a is Float && b is Float) ==> (value_eq(a, b) <==> a == b),
        a is Float && b is Float ==> (value_eq(a, b) <==> a->Float_0 == b->Float_0),
{
}

/// A field that both sides have is listed as changed exactly when its values
/// differ (for two floats: when their bits differ).
pub proof fn lemma_changed_fields_see_differences(
    l: Map<Seq<char>, ValueModel>,
    r: Map<Seq<char>, ValueModel>,
    k: Seq<char>,
)
    requires
        l.dom().finite(),
        r.dom().finite(),
        l.contains_key(k),
        r.contains_key(k),
    ensures
        !(l[k] is Float && r[k] is Float) ==> (changed_field_names(l, r).contains(k) <==> l[k]
            != r[k]),
        l[k] is Float && r[k] is Float ==> (changed_field_names(l, r).contains(k) <==> l[k]->Float_0
            != r[k]->Float_0),
{
    lemma_changed_field_names_members(l, r, k);
    lemma_value_eq_identity(l[k], r[k]);
}

/// An integer's text in a fingerprint, and in an alignment key, reads back
/// as that integer.
pub proof fn lemma_int_texts_read_back(i: i64)
    ensures
        text::parse_i64_text(canonical_text(ValueModel::Int(i))) == Some(i),
        text::parse_i64_text(key_text(ValueModel::Int(i))) == Some(i),
{
    text::lemma_int_text_parses(i);
}

/// Records of one integer field, of the same name, have the same fingerprint
/// only when they hold the same integer.
pub proof fn lemma_fingerprint_tells_integers(k: Seq<char>, a: i64, b: i64)
    requires
        fingerprint_text(Map::empty().insert(k, ValueModel::Int(a)), Seq::empty())
            == fingerprint_text(Map::empty().insert(k, ValueModel::Int(b)), Seq::empty()),
    ensures
        a == b,
{
    let ma = Map::<Seq<char>, ValueModel>::empty().insert(k, ValueModel::Int(a));
    let mb = Map::<Seq<char>, ValueModel>::empty().insert(k, ValueModel::Int(b));
    let ks = seq![k];
    assert(keys::strictly_sorted(ks));
    assert forall|x: Seq<char>| #[trigger] ks.to_set().contains(x) == (x == k) by {
        if x == k {
            assert(ks[0] == k);
        }
    }
    assert(ks.to_set() =~= ma.dom());
    assert(ks.to_set() =~= mb.dom());
    assert(!Seq::<Seq<char>>::empty().contains(k));
    keys::lemma_sorted_keys_of(ks);
    assert(ks.drop_last() =~= Seq::<Seq<char>>::empty());
    let ta = canonical_text(ValueModel::Int(a));
    let tb = canonical_text(ValueModel::Int(b));
    let fa = k + seq!['='] + ta + seq!['\x1e'];
    let fb = k + seq!['='] + tb + seq!['\x1e'];
    assert(keys::sorted_keys(ma.dom()) == ks);
    assert(keys::sorted_keys(mb.dom()) == ks);
    assert(ks.last() == k);
    assert(fingerprint_over(ks.drop_last(), ma, Seq::empty()) =~= Seq::<char>::empty());
    assert(fingerprint_over(ks.drop_last(), mb, Seq::empty()) =~= Seq::<char>::empty());
    assert(fingerprint_text(ma, Seq::empty()) =~= fa);
    assert(fingerprint_text(mb, Seq::empty()) =~= fb);
    assert(fa.len() == fb.len());
    assert(ta =~= fa.subrange(k.len() + 1int, fa.len() - 1));
    assert(tb =~= fb.subrange(k.len() + 1int, fb.len() - 1));
    lemma_int_texts_read_back(a);
    lemma_int_texts_read_back(b);
}

/// The names of the fields that differ between two records, in name order.
pub fn changed_fields(left: &Record, right: &Record) -> (r: Vec<String>)
    ensures
        text_seq(r@) == changed_field_names(left@.fields, right@.fields),
{
    let lf = &left.fields;
    let rf = &right.fields;
    proof {
        use_type_invariant(lf);
        use_type_invariant(rf);
        lf.lemma_view();
        rf.lemma_view();
    }
    let names = union_keys(&lf.entries, &rf.entries);
    let ghost all = keys::entry_keys(names@);
    assert(all == keys::sorted_keys(lf@.dom() + rf@.dom()));
    let mut out: Vec<String> = Vec::new();
    let mut k: usize = 0;
    assert(all.take(0) =~= Seq::<Seq<char>>::empty());
    assert(text_seq(out@) =~= Seq::<Seq<char>>::empty());
    while k < names.len()
        invariant
            0 <= k <= names@.len(),
            all == keys::entry_keys(names@),
            text_seq(out@) == differing_names(all.take(k as int), lf@, rf@),
        decreases names@.len() - k,
    {
        let name = &names[k].0;
        assert(all[k as int] == name@);
        assert(all.take(k + 1).drop_last() =~= all.take(k as int));
        let same = match (lf.get(name.as_str()), rf.get(name.as_str())) {
            (Some(a), Some(b)) => a.equals(b),
            (None, None) => true,
            _ => false,
        };
        if !same {
            let ghost before = out@;
            out.push(name.clone());
            assert(text_seq(out@) =~= text_seq(before).push(name@));
        }
        k = k + 1;
    }
    assert(all.take(k as int) =~= all);
    out
}

} // verus!
