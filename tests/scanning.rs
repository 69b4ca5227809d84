use par_grep::scan::{chars_of, contains_pattern, scan_lines};

fn lines(ls: &[&str]) -> Vec<String> {
    ls.iter().map(|l| l.to_string()).collect()
}

#[test]
fn substring_containment() {
    assert!(contains_pattern("foo bar", "foo"));
    assert!(contains_pattern("a foo", "foo"));
    assert!(contains_pattern("foofoo", "foo"));
    assert!(!contains_pattern("baz", "foo"));
    assert!(!contains_pattern("fo", "foo"));
    assert!(!contains_pattern("", "foo"));
}

#[test]
fn containment_is_case_sensitive_and_literal() {
    assert!(!contains_pattern("Foo", "foo"));
    assert!(!contains_pattern("fxo", "f.o"));
    assert!(contains_pattern("a f.o b", "f.o"));
}

#[test]
fn empty_pattern_is_everywhere() {
    assert!(contains_pattern("", ""));
    assert!(contains_pattern("anything", ""));
}

#[test]
fn non_ascii_text() {
    assert!(contains_pattern("héllo wörld", "wö"));
    assert!(!contains_pattern("héllo", "he"));
    assert_eq!(chars_of("héllo"), vec!['h', 'é', 'l', 'l', 'o']);
}

#[test]
fn scan_reports_numbered_matches() {
    let ms = scan_lines(&lines(&["foo bar", "baz", "foofoo"]), "foo");
    assert_eq!(ms.len(), 2);
    assert_eq!(ms[0].line_number, 1);
    assert_eq!(ms[0].text, "foo bar");
    assert_eq!(ms[1].line_number, 3);
    assert_eq!(ms[1].text, "foofoo");
}

#[test]
fn scan_with_empty_pattern_reports_every_line() {
    let ms = scan_lines(&lines(&["a", "", "c"]), "");
    let got: Vec<(usize, String)> = ms.iter().map(|m| (m.line_number, m.text.clone())).collect();
    assert_eq!(got, vec![(1, "a".to_string()), (2, "".to_string()), (3, "c".to_string())]);
}

#[test]
fn scan_of_no_lines() {
    assert!(scan_lines(&Vec::new(), "foo").is_empty());
}
