use rustydiff::diff_streams;
use rustydiff::output::{JsonItem, JsonlFormatter, OutputFormat, RecordPart, UnifiedFormatter};
use rustydiff::parser::{parse_json_line, parse_line_skipping_bad, parse_logfmt_line, sniff, LineFormat};
use rustydiff::record::{changed_fields, fingerprint, record_key, FieldMap, FloatValue, Record, Value};
use rustydiff::text::{i64_text, parse_i64, trimmed};
use rustydiff::{DiffChange, RustydiffError};

fn read_f64(s: &str) -> Option<FloatValue> {
    s.parse::<f64>()
        .ok()
        .map(|f| FloatValue::new(f.to_bits(), f.to_string()))
}

fn logfmt(line: &str) -> Record {
    parse_logfmt_line(line, &read_f64).expect("logfmt")
}

fn json(line: &str) -> Record {
    parse_json_line(line, &read_f64).expect("json")
}

fn parse_message(r: Result<Record, RustydiffError>) -> String {
    match r {
        Err(RustydiffError::Parse(m)) => m,
        other => panic!("expected a parse error, got {other:?}"),
    }
}

fn raws(changes: &[DiffChange]) -> Vec<String> {
    changes
        .iter()
        .map(|c| match c {
            DiffChange::OnlyInLeft { record } => format!("<{}", record.raw),
            DiffChange::OnlyInRight { record } => format!(">{}", record.raw),
            DiffChange::Modified { left, right, .. } => format!("~{}|{}", left.raw, right.raw),
        })
        .collect()
}

#[test]
fn sniff_looks_past_white_space() {
    assert_eq!(sniff("  {\"a\": 1}"), LineFormat::Json);
    assert_eq!(sniff("[1, 2]"), LineFormat::Json);
    assert_eq!(sniff("\u{3000}\t{"), LineFormat::Json);
    assert_eq!(sniff("a=1"), LineFormat::Logfmt);
    assert_eq!(sniff(""), LineFormat::Logfmt);
    assert_eq!(sniff("   "), LineFormat::Logfmt);
}

#[test]
fn output_format_names() {
    assert_eq!(OutputFormat::parse("jsonl").unwrap(), OutputFormat::Jsonl);
    assert_eq!(OutputFormat::parse("side-by-side").unwrap(), OutputFormat::SideBySide);
    assert_eq!(OutputFormat::parse("unified").unwrap(), OutputFormat::Unified);
    match OutputFormat::parse("xml") {
        Err(e) => {
            assert_eq!(
                e.message(),
                "argument error: unknown format 'xml'; expected jsonl, side-by-side, or unified"
            );
            match e {
                RustydiffError::Argument(m) => {
                    assert_eq!(m, "unknown format 'xml'; expected jsonl, side-by-side, or unified")
                }
                other => panic!("expected an argument error, got {other:?}"),
            }
        }
        Ok(f) => panic!("expected an error, got {f:?}"),
    }
}

#[test]
fn logfmt_values_of_each_kind() {
    let r = logfmt(r#"a=true b=false c=null d=42 e=-7 f=1.5 g=hello h="x \"y\" \\z" i=+5"#);
    assert_eq!(r.fields.len(), 9);
    assert!(matches!(r.fields.get("a"), Some(Value::Bool(true))));
    assert!(matches!(r.fields.get("b"), Some(Value::Bool(false))));
    assert!(matches!(r.fields.get("c"), Some(Value::Null)));
    assert!(matches!(r.fields.get("d"), Some(Value::Int(42))));
    assert!(matches!(r.fields.get("e"), Some(Value::Int(-7))));
    match r.fields.get("f") {
        Some(Value::Float(f)) => {
            assert_eq!(f.bits, 1.5f64.to_bits());
            assert_eq!(f.text, "1.5");
        }
        other => panic!("expected a float, got {other:?}"),
    }
    match r.fields.get("g") {
        Some(Value::Str(s)) => assert_eq!(s, "hello"),
        other => panic!("expected a text, got {other:?}"),
    }
    match r.fields.get("h") {
        Some(Value::Str(s)) => assert_eq!(s, "x \"y\" \\z"),
        other => panic!("expected a text, got {other:?}"),
    }
    assert!(matches!(r.fields.get("i"), Some(Value::Int(5))));
    assert_eq!(r.raw, r#"a=true b=false c=null d=42 e=-7 f=1.5 g=hello h="x \"y\" \\z" i=+5"#);
}

#[test]
fn logfmt_integer_limits() {
    let r = logfmt("lo=-9223372036854775808 hi=9223372036854775807 over=9223372036854775808");
    assert!(matches!(r.fields.get("lo"), Some(Value::Int(i64::MIN))));
    assert!(matches!(r.fields.get("hi"), Some(Value::Int(i64::MAX))));
    match r.fields.get("over") {
        Some(Value::Float(f)) => assert_eq!(f.bits, 9223372036854775808f64.to_bits()),
        other => panic!("expected a float, got {other:?}"),
    }
}

#[test]
fn logfmt_later_pair_wins_and_words_stay_text() {
    let r = logfmt("a=1 a=2 b=abc c=\"\"");
    assert!(matches!(r.fields.get("a"), Some(Value::Int(2))));
    match r.fields.get("b") {
        Some(Value::Str(s)) => assert_eq!(s, "abc"),
        other => panic!("expected a text, got {other:?}"),
    }
    match r.fields.get("c") {
        Some(Value::Str(s)) => assert_eq!(s, ""),
        other => panic!("expected a text, got {other:?}"),
    }
}

#[test]
fn logfmt_line_without_pairs_is_an_error() {
    let m = parse_message(parse_logfmt_line("just words here", &read_f64));
    assert_eq!(m, "logfmt line has no key=value pairs");
    let e = parse_logfmt_line("just words", &read_f64).unwrap_err();
    assert_eq!(e.message(), "parse error: logfmt line has no key=value pairs");
    let blank = parse_logfmt_line("   ", &read_f64).expect("blank line");
    assert!(blank.fields.is_empty());
}

#[test]
fn json_values_of_each_kind() {
    let r = json(r#"{"a": null, "b": true, "c": 3, "d": 2.5, "e": "s", "f": 18446744073709551615}"#);
    assert_eq!(r.fields.len(), 6);
    assert!(matches!(r.fields.get("a"), Some(Value::Null)));
    assert!(matches!(r.fields.get("b"), Some(Value::Bool(true))));
    assert!(matches!(r.fields.get("c"), Some(Value::Int(3))));
    match r.fields.get("d") {
        Some(Value::Float(f)) => {
            assert_eq!(f.bits, 2.5f64.to_bits());
            assert_eq!(f.text, "2.5");
        }
        other => panic!("expected a float, got {other:?}"),
    }
    match r.fields.get("e") {
        Some(Value::Str(s)) => assert_eq!(s, "s"),
        other => panic!("expected a text, got {other:?}"),
    }
    match r.fields.get("f") {
        Some(Value::Float(f)) => {
            assert_eq!(f.bits, (18446744073709551615u64 as f64).to_bits());
        }
        other => panic!("expected a float, got {other:?}"),
    }
}

#[test]
fn json_errors_of_each_kind() {
    let m = parse_message(parse_json_line("{not json", &read_f64));
    assert!(m.starts_with("invalid JSON line: "), "{m}");
    assert!(m.len() > "invalid JSON line: ".len());
    let m = parse_message(parse_json_line("[1, 2]", &read_f64));
    assert_eq!(m, "JSON line must be an object");
    let m = parse_message(parse_json_line(r#"{"a": [1]}"#, &read_f64));
    assert_eq!(m, "nested JSON values are not supported in records");
    let m = parse_message(parse_json_line(r#"{"n": 1.5}"#, &|_: &str| None));
    assert_eq!(m, "unsupported JSON number");
}

#[test]
fn skipping_bad_lines() {
    assert!(parse_line_skipping_bad("   ", &read_f64).is_none());
    assert!(parse_line_skipping_bad("{bad", &read_f64).is_none());
    assert!(parse_line_skipping_bad("no pairs", &read_f64).is_none());
    let r = parse_line_skipping_bad("  a=1  ", &read_f64).expect("record");
    assert_eq!(r.raw, "a=1");
    let r = parse_line_skipping_bad("\t{\"a\": 1} ", &read_f64).expect("record");
    assert_eq!(r.raw, "{\"a\": 1}");
    assert!(matches!(r.fields.get("a"), Some(Value::Int(1))));
}

#[test]
fn record_keys_join_with_unit_separator() {
    let r = json(r#"{"a": "x", "b": 2, "c": null, "d": false}"#);
    let k = record_key(&r, &["a".to_string(), "b".to_string()]).unwrap();
    assert_eq!(k, "x\u{1f}2");
    let k = record_key(&r, &["c".to_string(), "d".to_string(), "a".to_string()]).unwrap();
    assert_eq!(k, "\u{1f}false\u{1f}x");
    let e = record_key(&r, &["a".to_string(), "zz".to_string(), "yy".to_string()]).unwrap_err();
    assert_eq!(e, "missing key field 'zz' in record");
    let k = record_key(&r, &[]).unwrap();
    assert_eq!(k, fingerprint(&r, &[]));
}

#[test]
fn fingerprint_is_in_name_order() {
    let r = json(r#"{"b": "x", "a": 1, "c": null, "d": true, "e": 0.5}"#);
    assert_eq!(fingerprint(&r, &[]), "a=1\u{1e}b=\"x\"\u{1e}c=null\u{1e}d=true\u{1e}e=0.5\u{1e}");
    assert_eq!(
        fingerprint(&r, &["b".to_string(), "e".to_string()]),
        "a=1\u{1e}c=null\u{1e}d=true\u{1e}"
    );
    let same_fields = logfmt(r#"d=true c=null b="x" a=1 e=0.5"#);
    assert_eq!(fingerprint(&r, &[]), fingerprint(&same_fields, &[]));
}

#[test]
fn key_strings_of_values() {
    assert_eq!(Value::Null.as_key_string(), "");
    assert_eq!(Value::Bool(true).as_key_string(), "true");
    assert_eq!(Value::Int(-12).as_key_string(), "-12");
    assert_eq!(Value::Str("q".to_string()).as_key_string(), "q");
    assert_eq!(Value::Float(FloatValue::new(0, "0".to_string())).as_key_string(), "0");
}

#[test]
fn values_compare_floats_by_bits() {
    let a = Value::Float(FloatValue::new(7, "seven".to_string()));
    let b = Value::Float(FloatValue::new(7, "7".to_string()));
    let c = Value::Float(FloatValue::new(8, "seven".to_string()));
    assert!(a.equals(&b));
    assert!(!a.equals(&c));
    assert!(!Value::Int(1).equals(&Value::Str("1".to_string())));
    assert!(Value::Null.equals(&Value::Null));
}

#[test]
fn changed_fields_in_name_order() {
    let l = json(r#"{"a": 1, "b": 2, "z": 5}"#);
    let r = json(r#"{"b": 3, "c": 4, "z": 5}"#);
    assert_eq!(changed_fields(&l, &r), vec!["a", "b", "c"]);
    assert_eq!(changed_fields(&r, &l), vec!["a", "b", "c"]);
    assert!(changed_fields(&l, &l).is_empty());
}

#[test]
fn field_map_keeps_names_in_byte_order() {
    let mut m = FieldMap::new();
    assert!(m.is_empty());
    m.insert("b".to_string(), Value::Int(1));
    m.insert("a".to_string(), Value::Int(2));
    m.insert("B".to_string(), Value::Int(3));
    m.insert("é".to_string(), Value::Int(4));
    m.insert("a".to_string(), Value::Int(5));
    assert_eq!(m.len(), 4);
    assert_eq!(m.keys(), vec!["B", "a", "b", "é"]);
    assert!(matches!(m.get("a"), Some(Value::Int(5))));
    assert!(m.get("c").is_none());
    let (k, v) = m.entry(0);
    assert_eq!(k, "B");
    assert!(matches!(v, Value::Int(3)));
}

#[test]
fn diff_orders_changes_by_key() {
    let left = vec![logfmt("id=b v=1"), logfmt("id=a v=1"), logfmt("id=B v=1")];
    let right = vec![logfmt("id=a v=2"), logfmt("id=c v=1")];
    let changes = diff_streams(left, right, &["id".to_string()]).unwrap();
    assert_eq!(raws(&changes), vec!["<id=B v=1", "~id=a v=1|id=a v=2", "<id=b v=1", ">id=c v=1"]);
}

#[test]
fn diff_of_a_stream_with_itself_is_empty() {
    let rs = vec![logfmt("id=1 x=2"), logfmt("id=2 x=3"), json(r#"{"id": 3, "f": 1.25}"#)];
    assert!(diff_streams(rs.clone(), rs.clone(), &["id".to_string()]).unwrap().is_empty());
    assert!(diff_streams(rs.clone(), rs, &[]).unwrap().is_empty());
    assert!(diff_streams(Vec::new(), Vec::new(), &[]).unwrap().is_empty());
}

#[test]
fn diff_mirrors_when_sides_swap() {
    let l = vec![logfmt("id=1 x=2"), logfmt("id=2 x=3")];
    let r = vec![logfmt("id=2 x=4"), logfmt("id=3 x=1")];
    let forward = diff_streams(l.clone(), r.clone(), &["id".to_string()]).unwrap();
    let backward = diff_streams(r, l, &["id".to_string()]).unwrap();
    assert_eq!(raws(&forward), vec!["<id=1 x=2", "~id=2 x=3|id=2 x=4", ">id=3 x=1"]);
    assert_eq!(raws(&backward), vec![">id=1 x=2", "~id=2 x=4|id=2 x=3", "<id=3 x=1"]);
}

#[test]
fn diff_keeps_the_last_record_of_a_key() {
    let l = vec![logfmt("id=1 x=1"), logfmt("id=1 x=2")];
    let r = vec![logfmt("id=1 x=2")];
    assert!(diff_streams(l, r, &["id".to_string()]).unwrap().is_empty());
}

#[test]
fn diff_reports_records_without_key_fields() {
    let l = vec![logfmt("id=1"), logfmt("name=x"), logfmt("other=y")];
    let r = vec![logfmt("nothing=1")];
    let e = diff_streams(l.clone(), r.clone(), &["id".to_string()]).unwrap_err();
    assert_eq!(e, "missing key field 'id' in record");
    let e = diff_streams(vec![logfmt("id=1")], r, &["id".to_string()]).unwrap_err();
    assert_eq!(e, "missing key field 'id' in record");
    let e = diff_streams(l, Vec::new(), &["other".to_string()]).unwrap_err();
    assert_eq!(e, "missing key field 'other' in record");
}

#[test]
fn diff_modified_when_only_raw_differs() {
    let l = vec![logfmt("id=1  x=2")];
    let r = vec![logfmt("id=1 x=2")];
    let changes = diff_streams(l, r, &["id".to_string()]).unwrap();
    match &changes[0] {
        DiffChange::Modified { changed_fields, .. } => assert!(changed_fields.is_empty()),
        other => panic!("expected modified, got {other:?}"),
    }
}

#[test]
fn unified_lines_of_each_kind() {
    let l = vec![logfmt("id=1 x=2 y=true"), logfmt("id=2")];
    let r = vec![logfmt("id=1 x=3 z=null"), logfmt("id=4 q=\"a b\"")];
    let changes = diff_streams(l, r, &["id".to_string()]).unwrap();
    assert_eq!(
        UnifiedFormatter.lines(&changes[0]),
        vec!["@@ modified @@", "-x=2", "+x=3", "-y=true", "+y=-", "-z=-", "+z=null"]
    );
    assert_eq!(UnifiedFormatter.lines(&changes[1]), vec!["- id=2"]);
    assert_eq!(UnifiedFormatter.lines(&changes[2]), vec!["+ id=4 q=\"a b\""]);
}

#[test]
fn jsonl_members_of_each_kind() {
    let changes = diff_streams(vec![logfmt("a=1")], vec![logfmt("b=2")], &[]).unwrap();
    let first = JsonlFormatter.members(&changes[0]);
    assert_eq!(first.len(), 2);
    assert_eq!(first[0].0, "kind");
    assert!(matches!(&first[0].1, JsonItem::Text(t) if t == "only_in_left"));
    assert_eq!(first[1].0, "record");
    assert!(matches!(&first[1].1, JsonItem::Record(r) if r.raw == "a=1"));
    let second = JsonlFormatter.members(&changes[1]);
    assert!(matches!(&second[0].1, JsonItem::Text(t) if t == "only_in_right"));
}

#[test]
fn integers_as_text_and_back() {
    assert_eq!(i64_text(0), "0");
    assert_eq!(i64_text(-12), "-12");
    assert_eq!(i64_text(i64::MIN), "-9223372036854775808");
    assert_eq!(i64_text(i64::MAX), "9223372036854775807");
    for i in [0i64, 7, -7, 1234567890, i64::MIN, i64::MAX] {
        assert_eq!(parse_i64(&i64_text(i)), Some(i));
        let r = logfmt(&format!("n={}", i64_text(i)));
        assert!(matches!(r.fields.get("n"), Some(Value::Int(v)) if *v == i));
    }
    assert_eq!(parse_i64(""), None);
    assert_eq!(parse_i64("-"), None);
    assert_eq!(parse_i64("+"), None);
    assert_eq!(parse_i64("+12"), Some(12));
    assert_eq!(parse_i64("1 "), None);
    assert_eq!(parse_i64("12a"), None);
    assert_eq!(parse_i64("-9223372036854775809"), None);
    assert_eq!(parse_i64("00012"), Some(12));
}

#[test]
fn trimming_white_space() {
    assert_eq!(trimmed("  a b \t"), "a b");
    assert_eq!(trimmed("\u{2003}x\u{3000}"), "x");
    assert_eq!(trimmed("   "), "");
    assert_eq!(trimmed(""), "");
}

#[test]
fn records_clone_and_compare() {
    let r = json(r#"{"a": 1, "b": "x"}"#);
    let c = r.clone();
    assert!(r.equals(&c));
    assert_eq!(r, c);
    assert_eq!(c.raw, r.raw);
    assert_ne!(
        Value::Float(FloatValue::new(1, "a".to_string())),
        Value::Float(FloatValue::new(2, "a".to_string()))
    );
    let other = json(r#"{"a": 1, "b": "y"}"#);
    assert!(!r.equals(&other));
    let mut fields = FieldMap::new();
    fields.insert("a".to_string(), Value::Int(1));
    let built = Record::new(fields, "a=1".to_string());
    assert!(built.equals(&logfmt("a=1")));
}

#[test]
fn io_errors_keep_their_own_text() {
    let e = RustydiffError::Io(std::io::Error::new(std::io::ErrorKind::Other, "disk on fire"));
    assert_eq!(e.message(), "disk on fire");
    let p = RustydiffError::Parse("bad".to_string());
    assert_eq!(p.message(), "parse error: bad");
}

#[test]
fn changes_compare_by_kind_records_and_names() {
    let l = vec![logfmt("id=1 x=2"), logfmt("id=2 x=3")];
    let r = vec![logfmt("id=2 x=4"), logfmt("id=3 x=1")];
    let once = diff_streams(l.clone(), r.clone(), &["id".to_string()]).unwrap();
    let again = diff_streams(l, r, &["id".to_string()]).unwrap();
    assert_eq!(once, again);
    assert_ne!(once[0], once[2]);
    assert_eq!(
        once[0],
        DiffChange::OnlyInLeft { record: logfmt("id=1 x=2") }
    );
}

#[test]
fn record_members_give_fields_in_name_order_then_raw() {
    let r = json(r#"{"b": "x", "a": 1}"#);
    let members = JsonlFormatter.record_members(&r);
    assert_eq!(members.len(), 2);
    assert_eq!(members[0].0, "fields");
    match &members[0].1 {
        RecordPart::Fields(named) => {
            let names: Vec<&str> = named.iter().map(|(k, _)| k.as_str()).collect();
            assert_eq!(names, vec!["a", "b"]);
            assert!(matches!(named[0].1, Value::Int(1)));
        }
        other => panic!("expected fields, got {other:?}"),
    }
    assert_eq!(members[1].0, "raw");
    assert!(matches!(&members[1].1, RecordPart::Raw(t) if t == r#"{"b": "x", "a": 1}"#));
}

#[test]
fn changes_clone_equal() {
    let changes = diff_streams(vec![logfmt("id=1 x=1")], vec![logfmt("id=1 x=2")], &["id".to_string()]).unwrap();
    let copy = changes.clone();
    assert_eq!(changes, copy);
    match &copy[0] {
        DiffChange::Modified { changed_fields, .. } => assert_eq!(changed_fields, &vec!["x".to_string()]),
        other => panic!("expected modified, got {other:?}"),
    }
}

#[test]
fn io_errors_convert() {
    let e: RustydiffError = std::io::Error::new(std::io::ErrorKind::NotFound, "gone").into();
    assert!(matches!(e, RustydiffError::Io(_)));
    assert_eq!(e.message(), "gone");
}

#[test]
fn fingerprint_ignores_excluded_fields_and_raw() {
    let r = logfmt("a=1 b=2 c=x");
    let without_b = logfmt("c=x   a=1");
    assert_eq!(fingerprint(&r, &["b".to_string()]), fingerprint(&without_b, &[]));
    let other_b = logfmt("b=99 a=1 c=x");
    assert_eq!(fingerprint(&r, &["b".to_string()]), fingerprint(&other_b, &["b".to_string()]));
}

#[test]
fn json_lines_of_other_kinds_are_not_records() {
    for line in ["null", "true", "42", "\"text\"", "[]"] {
        let m = parse_message(parse_json_line(line, &read_f64));
        assert_eq!(m, "JSON line must be an object");
    }
    let m = parse_message(parse_json_line(r#"{"a": {"b": 1}}"#, &read_f64));
    assert_eq!(m, "nested JSON values are not supported in records");
}
