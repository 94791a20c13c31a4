use krnch::formatter::Formatter;
use krnch::reader::{
    path_le, sort_paths, CollectError, Entry, EntryKind, FileCollector, ReadFailure, ReadStage,
    RootKind,
};
use krnch::types::{FileData, OutputFormat};

fn entry(path: &str, kind: EntryKind) -> Option<Entry> {
    Some(Entry { path: path.to_string(), kind })
}

fn strings(items: &[&str]) -> Vec<String> {
    items.iter().map(|s| s.to_string()).collect()
}

#[test]
fn missing_root_is_path_not_found() {
    let c = FileCollector::new();
    let r = c.discover_files("no/such/place", RootKind::Missing, &vec![]);
    match r {
        Err(CollectError::PathNotFound { path }) => assert_eq!(path, "no/such/place"),
        _ => panic!("a missing root must give PathNotFound"),
    }
    let e = CollectError::PathNotFound { path: "no/such/place".to_string() };
    assert_eq!(e.message(), "Path does not exist: no/such/place");
}

#[test]
fn file_root_is_the_one_path() {
    let c = FileCollector::new();
    let walk = vec![entry("other", EntryKind::File)];
    let r = c.discover_files("notes.txt", RootKind::File, &walk).unwrap();
    assert_eq!(r, strings(&["notes.txt"]));
}

#[test]
fn directory_root_keeps_files_only_and_sorts_them() {
    let c = FileCollector::new();
    let walk = vec![
        entry("root", EntryKind::Directory),
        entry("root/z.txt", EntryKind::File),
        None,
        entry("root/sub", EntryKind::Directory),
        entry("root/sub/b.bin", EntryKind::File),
        entry("root/pipe", EntryKind::Other),
        entry("root/a.bin", EntryKind::File),
        None,
        entry("root/B.bin", EntryKind::File),
    ];
    let r = c.discover_files("root", RootKind::Directory, &walk).unwrap();
    assert_eq!(r, strings(&["root/B.bin", "root/a.bin", "root/sub/b.bin", "root/z.txt"]));
}

#[test]
fn directory_without_files_is_empty_not_an_error() {
    let c = FileCollector::new();
    let walk = vec![entry("root", EntryKind::Directory), None, entry("root/d", EntryKind::Directory)];
    assert_eq!(c.discover_files("root", RootKind::Directory, &walk).unwrap(), Vec::<String>::new());
    assert_eq!(c.discover_files("root", RootKind::Directory, &vec![]).unwrap(), Vec::<String>::new());
}

#[test]
fn sort_is_ascending_by_bytes_and_keeps_duplicates() {
    let input = strings(&["b", "a", "", "ab", "a", "B", "\u{e9}", "z", "a/b", "a.b", "aa"]);
    let sorted = sort_paths(input.clone());
    let mut expected = input;
    expected.sort();
    assert_eq!(sorted, expected);
    assert_eq!(sorted, strings(&["", "B", "a", "a", "a.b", "a/b", "aa", "ab", "b", "z", "\u{e9}"]));
}

#[test]
fn sort_handles_many_paths() {
    let mut input = Vec::new();
    let mut x: u32 = 12345;
    for _ in 0..1000 {
        x = x.wrapping_mul(1103515245).wrapping_add(12345);
        input.push(format!("dir{}/file{}", (x >> 16) % 7, (x >> 8) % 500));
    }
    let sorted = sort_paths(input.clone());
    let mut expected = input;
    expected.sort();
    assert_eq!(sorted, expected);
    for pair in sorted.windows(2) {
        assert!(path_le(&pair[0], &pair[1]));
    }
}

#[test]
fn path_le_is_lexicographic() {
    assert!(path_le("", ""));
    assert!(path_le("", "a"));
    assert!(!path_le("a", ""));
    assert!(path_le("a", "a"));
    assert!(path_le("a", "b"));
    assert!(!path_le("b", "a"));
    assert!(path_le("a", "ab"));
    assert!(!path_le("ab", "a"));
    assert!(path_le("Z", "a"));
    assert!(path_le("a.bin", "b.bin"));
    assert!(path_le("z", "\u{e9}"));
    assert!(!path_le("\u{e9}", "z"));
}

#[test]
fn read_file_builds_record_or_error() {
    let c = FileCollector::new();
    let ok = c.read_file("a.bin".to_string(), Ok(vec![1, 2, 3])).unwrap();
    assert_eq!(ok.path, "a.bin");
    assert_eq!(ok.content, vec![1, 2, 3]);
    assert_eq!(ok.size, 3);
    let failure = ReadFailure { stage: ReadStage::Open, cause: "Permission denied".to_string() };
    match c.read_file("secret".to_string(), Err(failure)) {
        Err(CollectError::ReadError { path, stage, cause }) => {
            assert_eq!(path, "secret");
            assert_eq!(stage, ReadStage::Open);
            assert_eq!(cause, "Permission denied");
        }
        _ => panic!("a failed read must give ReadError"),
    }
}

#[test]
fn read_error_messages_name_path_and_cause() {
    let open = CollectError::ReadError {
        path: "d/secret".to_string(),
        stage: ReadStage::Open,
        cause: "Permission denied (os error 13)".to_string(),
    };
    assert_eq!(open.message(), "Failed to open d/secret: Permission denied (os error 13)");
    let read = CollectError::ReadError {
        path: "d/half".to_string(),
        stage: ReadStage::Read,
        cause: "Input/output error".to_string(),
    };
    assert_eq!(read.message(), "Failed to read d/half: Input/output error");
}

#[test]
fn one_failed_read_fails_the_whole_collection() {
    let c = FileCollector::new();
    let denied = ReadFailure { stage: ReadStage::Open, cause: "Permission denied".to_string() };
    let gone = ReadFailure { stage: ReadStage::Read, cause: "vanished".to_string() };
    let reads = vec![
        c.read_file("a".to_string(), Ok(vec![1])),
        c.read_file("b".to_string(), Err(denied)),
        c.read_file("c".to_string(), Ok(vec![2])),
        c.read_file("d".to_string(), Err(gone)),
    ];
    match c.collect(reads) {
        Err(CollectError::ReadError { path, stage, cause }) => {
            assert_eq!(path, "b");
            assert_eq!(stage, ReadStage::Open);
            assert_eq!(cause, "Permission denied");
        }
        _ => panic!("the first failed read must fail the collection"),
    }
}

#[test]
fn collection_keeps_the_order_of_the_paths() {
    let c = FileCollector::new();
    let walk = vec![
        entry("d/b.bin", EntryKind::File),
        entry("d", EntryKind::Directory),
        entry("d/a.bin", EntryKind::File),
    ];
    let paths = c.discover_files("d", RootKind::Directory, &walk).unwrap();
    let reads: Vec<Result<FileData, CollectError>> = paths
        .into_iter()
        .map(|p| {
            let content = if p == "d/b.bin" { vec![0xFF] } else { vec![] };
            c.read_file(p, Ok(content))
        })
        .collect();
    let records = c.collect(reads).unwrap();
    assert_eq!(records.len(), 2);
    assert_eq!(records[0].path, "d/a.bin");
    assert_eq!(records[0].size, 0);
    assert_eq!(records[1].path, "d/b.bin");
    assert_eq!(records[1].content, vec![0xFF]);
    for pair in records.windows(2) {
        assert!(path_le(&pair[0].path, &pair[1].path));
    }
    let out = Formatter::new(OutputFormat::Json).format(&records).unwrap();
    let doc: serde_json::Value = serde_json::from_slice(&out).unwrap();
    assert_eq!(doc["files"][0]["path"].as_str(), Some("d/a.bin"));
    assert_eq!(doc["files"][1]["path"].as_str(), Some("d/b.bin"));
    assert_eq!(doc["total_files"].as_u64(), Some(2));
    assert_eq!(doc["total_size"].as_u64(), Some(1));
}

#[test]
fn collection_of_nothing_is_empty() {
    let c = FileCollector::new();
    assert_eq!(c.collect(vec![]).unwrap().len(), 0);
}

#[test]
fn paths_listed_once_come_out_strictly_ascending() {
    let c = FileCollector::new();
    let walk = vec![
        entry("d/c", EntryKind::File),
        entry("d/a", EntryKind::File),
        entry("d/sub", EntryKind::Directory),
        entry("d/b", EntryKind::File),
        entry("d/a0", EntryKind::File),
    ];
    let paths = c.discover_files("d", RootKind::Directory, &walk).unwrap();
    assert_eq!(paths, strings(&["d/a", "d/a0", "d/b", "d/c"]));
    for pair in paths.windows(2) {
        assert!(path_le(&pair[0], &pair[1]));
        assert!(!path_le(&pair[1], &pair[0]));
    }
}

#[test]
fn path_listed_twice_is_kept_twice() {
    let c = FileCollector::new();
    let walk = vec![
        entry("d/b", EntryKind::File),
        entry("d/a", EntryKind::File),
        entry("d/b", EntryKind::File),
    ];
    let paths = c.discover_files("d", RootKind::Directory, &walk).unwrap();
    assert_eq!(paths, strings(&["d/a", "d/b", "d/b"]));
}
