use rustydiff::diff_streams;
use rustydiff::output::{JsonItem, JsonlFormatter, OutputFormat, UnifiedFormatter};
use rustydiff::parser::{parse_auto, parse_line_skipping_bad, LineFormat};
use rustydiff::record::{record_key, FloatValue, Record};
use rustydiff::DiffChange;

fn read_f64(s: &str) -> Option<FloatValue> {
    s.parse::<f64>()
        .ok()
        .map(|f| FloatValue::new(f.to_bits(), f.to_string()))
}

fn parse_lines(text: &str) -> Vec<Record> {
    text.lines()
        .filter_map(|l| parse_line_skipping_bad(l, &read_f64))
        .collect()
}

const ONLY_LEFT: &str = "{\"id\": 1, \"msg\": \"alpha\"}\n{\"id\": 2, \"msg\": \"beta\"}\n";
const ONLY_RIGHT: &str = "{\"id\": 2, \"msg\": \"beta\"}\n{\"id\": 3, \"msg\": \"gamma\"}\n";
const MODIFIED_LEFT: &str = "{\"id\": 1, \"l\": \"info\", \"msg\": \"start\"}\n\n{\"id\": 2, \"l\": \"warn\", \"msg\": \"disk\"}\n";
const MODIFIED_RIGHT: &str = "{\"id\": 1, \"l\": \"error\", \"msg\": \"start\"}\n{\"id\": 2, \"l\": \"warn\", \"msg\": \"disk\"}\n";
const FP_LEFT: &str = "{\"a\": 1, \"b\": \"x\"}\n{\"a\": 2, \"b\": \"y\"}\n{\"a\": 3, \"b\": \"z\"}\n";
const FP_RIGHT: &str = "{\"a\": 1, \"b\": \"x\"}\n{\"a\": 2, \"b\": \"y\"}\n{\"a\": 4, \"b\": \"z\"}\n";

#[test]
fn only_in_left_and_right() {
    let left = parse_lines(ONLY_LEFT);
    let right = parse_lines(ONLY_RIGHT);
    let changes = diff_streams(left, right, &["id".to_string()]).expect("diff");
    assert_eq!(changes.len(), 2);
    match &changes[0] {
        DiffChange::OnlyInLeft { record } => assert_eq!(record.raw, "{\"id\": 1, \"msg\": \"alpha\"}"),
        other => panic!("expected only in left, got {other:?}"),
    }
    match &changes[1] {
        DiffChange::OnlyInRight { record } => assert_eq!(record.raw, "{\"id\": 3, \"msg\": \"gamma\"}"),
        other => panic!("expected only in right, got {other:?}"),
    }
}

#[test]
fn modified_by_key() {
    let left = parse_lines(MODIFIED_LEFT);
    let right = parse_lines(MODIFIED_RIGHT);
    let changes = diff_streams(left, right, &["id".to_string()]).expect("diff");
    assert_eq!(changes.len(), 1);
    match &changes[0] {
        rustydiff::DiffChange::Modified { changed_fields, .. } => {
            assert!(changed_fields.contains(&"l".to_string()))
        }
        other => panic!("expected modified, got {other:?}"),
    }
}

#[test]
fn output_formats_snapshot() {
    let left = parse_lines(MODIFIED_LEFT);
    let right = parse_lines(MODIFIED_RIGHT);
    let changes = diff_streams(left, right, &["id".to_string()]).expect("diff");

    let members = JsonlFormatter.members(&changes[0]);
    let names: Vec<&str> = members.iter().map(|(k, _)| k.as_str()).collect();
    assert_eq!(names, vec!["changed_fields", "kind", "left", "right"]);
    match &members[1].1 {
        JsonItem::Text(t) => assert_eq!(t, "modified"),
        other => panic!("expected kind text, got {other:?}"),
    }
    match &members[0].1 {
        JsonItem::Names(n) => assert_eq!(n, &vec!["l".to_string()]),
        other => panic!("expected names, got {other:?}"),
    }

    let lines = UnifiedFormatter.lines(&changes[0]);
    assert_eq!(lines, vec!["@@ modified @@", "-l=info", "+l=error"]);
    assert!(OutputFormat::parse("side-by-side").is_ok());
}

#[test]
fn logfmt_auto_detect() {
    let line = r#"id=1 level=info msg="hello world""#;
    let fmt = rustydiff::parser::sniff(line);
    assert_eq!(fmt, LineFormat::Logfmt);
    let record = parse_auto(line, fmt, &read_f64).expect("parse");
    assert_eq!(
        record.fields.get("level").map(|v| format!("{v:?}")),
        Some("Str(\"info\")".to_string())
    );
}

#[test]
fn fingerprint_alignment_default_key() {
    let left = parse_lines(FP_LEFT);
    let right = parse_lines(FP_RIGHT);
    let changes = diff_streams(left, right, &[]).expect("diff");
    assert_eq!(changes.len(), 2);
    let same = parse_lines(MODIFIED_LEFT);
    let changes = diff_streams(same.clone(), same, &[]).expect("diff");
    assert!(changes.is_empty());
}

#[test]
fn record_key_missing_field_errors() {
    let records = parse_lines(MODIFIED_LEFT);
    let err = record_key(&records[0], &["missing".to_string()]);
    assert!(err.is_err());
}
