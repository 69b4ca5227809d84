use par_grep::partition::{chunk_bounds, partition};
use par_grep::paths::{collect_files, single_target, Entry};
use par_grep::search::{scan_chunk, FileContent, Hit, ResultSink, SourceFile};

fn file(path: &str, ls: &[&str]) -> SourceFile {
    SourceFile {
        path: path.to_string(),
        content: FileContent::Lines(ls.iter().map(|l| l.to_string()).collect()),
    }
}

fn records(hits: &[Hit]) -> Vec<String> {
    hits.iter().map(|h| h.record()).collect()
}

fn pooled(files: &[SourceFile], k: usize, pattern: &str) -> Vec<String> {
    let mut sink = ResultSink::new();
    for (start, end) in partition(files.len(), k) {
        let chunk: Vec<SourceFile> = files[start..end]
            .iter()
            .map(|f| SourceFile {
                path: f.path.clone(),
                content: match &f.content {
                    FileContent::Unreadable => FileContent::Unreadable,
                    FileContent::Lines(v) => FileContent::Lines(v.clone()),
                    FileContent::Broken(v) => FileContent::Broken(v.clone()),
                },
            })
            .collect();
        let scan = scan_chunk(&chunk, pattern);
        sink.append_hits(&scan.hits);
    }
    sink.snapshot_all()
}

#[test]
fn bounds_with_remainder_in_last_chunk() {
    assert_eq!(chunk_bounds(10, 3, 0), (0, 3));
    assert_eq!(chunk_bounds(10, 3, 1), (3, 6));
    assert_eq!(chunk_bounds(10, 3, 2), (6, 10));
    assert_eq!(partition(10, 3), vec![(0, 3), (3, 6), (6, 10)]);
}

#[test]
fn more_workers_than_files() {
    assert_eq!(partition(2, 4), vec![(0, 0), (0, 0), (0, 0), (0, 2)]);
}

#[test]
fn no_files_at_all() {
    assert_eq!(partition(0, 3), vec![(0, 0), (0, 0), (0, 0)]);
    assert_eq!(partition(5, 1), vec![(0, 5)]);
}

#[test]
fn single_file_scenario() {
    let files = vec![file("notes.txt", &["foo bar", "baz", "foofoo"])];
    let out = pooled(&files, 2, "foo");
    let mut sorted = out.clone();
    sorted.sort();
    assert_eq!(sorted, vec!["notes.txt:foo bar".to_string(), "notes.txt:foofoo".to_string()]);
}

#[test]
fn four_workers_two_files_match_one_worker() {
    let files = vec![file("a", &["x foo", "bar"]), file("b", &["foo", "foo again"])];
    let ranges = partition(files.len(), 4);
    let empty = ranges.iter().filter(|(s, e)| s == e).count();
    assert!(empty >= 2);
    let four = pooled(&files, 4, "foo");
    let one = pooled(&files, 1, "foo");
    assert_eq!(four.len(), 3);
    assert_eq!(four, one);
}

#[test]
fn unreadable_file_gives_nothing() {
    let files = vec![SourceFile { path: "missing.txt".to_string(), content: FileContent::Unreadable }];
    let scan = scan_chunk(&files, "foo");
    assert!(scan.hits.is_empty());
    assert!(!scan.aborted);
    assert!(pooled(&files, 2, "").is_empty());
}

#[test]
fn unreadable_among_readable_files() {
    let files = vec![
        file("a", &["foo"]),
        SourceFile { path: "gone".to_string(), content: FileContent::Unreadable },
        file("c", &["foo c"]),
    ];
    let scan = scan_chunk(&files, "foo");
    assert_eq!(records(&scan.hits), vec!["a:foo".to_string(), "c:foo c".to_string()]);
    assert!(!scan.aborted);
}

#[test]
fn undecodable_line_stops_the_worker() {
    let files = vec![
        file("a", &["foo 1"]),
        SourceFile { path: "bad".to_string(), content: FileContent::Broken(vec!["foo 2".to_string()]) },
        file("c", &["foo 3"]),
    ];
    let scan = scan_chunk(&files, "foo");
    assert!(scan.aborted);
    assert_eq!(records(&scan.hits), vec!["a:foo 1".to_string(), "bad:foo 2".to_string()]);
    assert_eq!(scan.hits[1].line_number, 1);
}

#[test]
fn hits_keep_file_then_line_order() {
    let files = vec![file("a", &["foo", "no", "foo2"]), file("b", &["foo3"])];
    let scan = scan_chunk(&files, "foo");
    let got: Vec<(String, usize, String)> =
        scan.hits.iter().map(|h| (h.path.clone(), h.line_number, h.text.clone())).collect();
    assert_eq!(
        got,
        vec![
            ("a".to_string(), 1, "foo".to_string()),
            ("a".to_string(), 3, "foo2".to_string()),
            ("b".to_string(), 1, "foo3".to_string()),
        ]
    );
}

#[test]
fn same_search_twice_gives_same_records() {
    let files = vec![file("a", &["foo", "bar"]), file("b", &["foo"]), file("c", &["xfoo"])];
    let mut first = pooled(&files, 3, "foo");
    let mut second = pooled(&files, 3, "foo");
    first.sort();
    second.sort();
    assert_eq!(first, second);
    assert_eq!(first, vec!["a:foo".to_string(), "b:foo".to_string(), "c:xfoo".to_string()]);
}

#[test]
fn record_joins_path_and_line() {
    let h = Hit { path: "dir/f.txt".to_string(), line_number: 9, text: "a: b".to_string() };
    assert_eq!(h.record(), "dir/f.txt:a: b");
}

#[test]
fn sink_keeps_append_order() {
    let mut sink = ResultSink::new();
    assert_eq!(sink.len(), 0);
    sink.append("one".to_string());
    sink.append("two".to_string());
    assert_eq!(sink.len(), 2);
    assert_eq!(sink.snapshot_all(), vec!["one".to_string(), "two".to_string()]);
}

#[test]
fn recursive_discovery_is_depth_first() {
    let tree = Entry::Dir(
        "root".to_string(),
        vec![
            Entry::File("root/a".to_string()),
            Entry::Dir(
                "root/sub".to_string(),
                vec![Entry::File("root/sub/b".to_string()), Entry::Other("root/sub/link".to_string())],
            ),
            Entry::Dir("root/empty".to_string(), Vec::new()),
            Entry::File("root/c".to_string()),
        ],
    );
    assert_eq!(
        collect_files(&tree),
        vec!["root/a".to_string(), "root/sub/b".to_string(), "root/c".to_string()]
    );
}

#[test]
fn recursive_discovery_from_a_file_or_nothing() {
    assert_eq!(collect_files(&Entry::File("f".to_string())), vec!["f".to_string()]);
    assert!(collect_files(&Entry::Other("x".to_string())).is_empty());
}

#[test]
fn non_recursive_target_is_the_path_alone() {
    assert_eq!(single_target(&"some/dir".to_string()), vec!["some/dir".to_string()]);
}
