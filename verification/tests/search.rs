use linegrep::matcher::MatchMode;
use linegrep::matcher::Matcher;
use linegrep::matcher::ScanError;
use linegrep::scanner::find;
use linegrep::scanner::scan;
use linegrep::scanner::LineRead;

fn lines(texts: &[&str]) -> Vec<LineRead> {
    texts.iter().map(|t| LineRead::Line(t.to_string())).collect()
}

#[test]
fn test_find() {
    let textcases: Vec<(&str, &str, usize, bool)> = vec![
        ("hello", "hello", 1, false),
        ("hello", "x", 0, false),
        ("hello", "hel((lo", 0, true),
    ];
    for (text, pattern, len, want_err) in textcases {
        let reads = lines(&[text]);
        let result = find(&reads, pattern);
        match result {
            Ok(v) => {
                assert_eq!(v.len(), len);
                assert!(!want_err);
            }
            Err(e) => {
                let err = e.describe();
                assert!(want_err, "{err}");
            }
        }
    }
}

#[test]
fn literal_scan_reports_indices_in_order() {
    // Input stream "hello\nworld\nhello world", literal pattern "hello":
    // matches at indices 0 and 2, in that order.
    let reads = lines(&["hello", "world", "hello world"]);
    let m = Matcher::compile("hello", MatchMode::Literal).unwrap();
    let records = scan(&m, &None, &reads).unwrap();
    assert_eq!(records.len(), 2);
    assert_eq!(records[0].line_index, 0);
    assert_eq!(records[0].line_text, "hello");
    assert_eq!(records[1].line_index, 2);
    assert_eq!(records[1].line_text, "hello world");
    assert!(records.iter().all(|r| r.source.is_none()));
}

#[test]
fn regex_scan_anchored_matches_first_line_only() {
    // The same stream with regex "^hello$" matches at index 0 only.
    let reads = lines(&["hello", "world", "hello world"]);
    let records = find(&reads, "^hello$").unwrap();
    assert_eq!(records.len(), 1);
    assert_eq!(records[0].line_index, 0);
    assert_eq!(records[0].line_text, "hello");
}

#[test]
fn empty_literal_pattern_matches_every_line() {
    let reads = lines(&["hello", "", "world"]);
    let m = Matcher::compile("", MatchMode::Literal).unwrap();
    let records = scan(&m, &None, &reads).unwrap();
    assert_eq!(records.len(), 3);
    let indices: Vec<usize> = records.iter().map(|r| r.line_index).collect();
    assert_eq!(indices, vec![0, 1, 2]);
}

#[test]
fn empty_regex_pattern_matches_every_line() {
    let reads = lines(&["hello", "", "world"]);
    let records = find(&reads, "").unwrap();
    assert_eq!(records.len(), 3);
}

#[test]
fn malformed_regex_is_rejected_before_scanning() {
    let reads = lines(&["hel((lo"]);
    let result = find(&reads, "hel((lo");
    assert!(matches!(result, Err(ScanError::PatternCompile(_))));
}

#[test]
fn malformed_regex_compiles_as_literal_and_matches_by_containment() {
    let m = Matcher::compile("hel((lo", MatchMode::Literal).unwrap();
    assert!(m.is_match("say hel((lo there"));
    assert!(m.is_match("hel((lo"));
    assert!(!m.is_match("hello"));
}

#[test]
fn literal_matching_is_containment_not_equality() {
    let m = Matcher::compile("ell", MatchMode::Literal).unwrap();
    assert!(m.is_match("hello"));
    assert!(m.is_match("ell"));
    assert!(!m.is_match("el"));
    assert!(!m.is_match("he"));
}

#[test]
fn failed_read_discards_accumulated_matches() {
    let reads = vec![
        LineRead::Line("hello".to_string()),
        LineRead::Failure("boom".to_string()),
        LineRead::Line("hello again".to_string()),
    ];
    let m = Matcher::compile("hello", MatchMode::Literal).unwrap();
    let result = scan(&m, &None, &reads);
    match result {
        Err(ScanError::StreamRead(msg)) => assert_eq!(msg, "boom"),
        _ => panic!("expected a stream read failure"),
    }
}

#[test]
fn earliest_read_failure_is_the_one_reported() {
    let reads = vec![
        LineRead::Failure("first".to_string()),
        LineRead::Failure("second".to_string()),
    ];
    let m = Matcher::compile("", MatchMode::Literal).unwrap();
    match scan(&m, &None, &reads) {
        Err(ScanError::StreamRead(msg)) => assert_eq!(msg, "first"),
        _ => panic!("expected a stream read failure"),
    }
}

#[test]
fn records_carry_the_source_label() {
    let reads = lines(&["alpha", "beta"]);
    let m = Matcher::compile("a", MatchMode::Literal).unwrap();
    let records = scan(&m, &Some("notes.txt".to_string()), &reads).unwrap();
    assert_eq!(records.len(), 2);
    for r in &records {
        assert_eq!(r.source.as_deref(), Some("notes.txt"));
    }
}

#[test]
fn regex_mode_uses_regex_semantics_not_containment() {
    let reads = lines(&["color", "colour", "colouur"]);
    let records = find(&reads, "colou?r").unwrap();
    let indices: Vec<usize> = records.iter().map(|r| r.line_index).collect();
    assert_eq!(indices, vec![0, 1]);
}
