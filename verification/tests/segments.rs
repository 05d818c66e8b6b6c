use kvstore::segments::{is_segment, lock_path, recovery_order, sorts_before};

fn names(list: &[&str]) -> Vec<String> {
    list.iter().map(|s| s.to_string()).collect()
}

#[test]
fn lock_files_are_no_segments() {
    assert!(is_segment("logs/wal_20251123_041843_000000001.log"));
    assert!(!is_segment("logs/wal_20251123_041843_000000001.log.lock"));
    assert!(!is_segment(".lock"));
    assert!(is_segment("lock"));
    assert!(is_segment(""));
    assert!(is_segment("a.lock.log"));
}

#[test]
fn lock_path_appends_the_suffix() {
    assert_eq!(lock_path("logs/wal_1.log"), "logs/wal_1.log.lock");
    assert_eq!(lock_path(""), ".lock");
    assert!(!is_segment(&lock_path("x")));
}

#[test]
fn names_are_ordered_by_their_bytes() {
    assert!(sorts_before("a", "b"));
    assert!(!sorts_before("b", "a"));
    assert!(!sorts_before("a", "a"));
    assert!(sorts_before("", "a"));
    assert!(!sorts_before("a", ""));
    assert!(!sorts_before("", ""));
    assert!(sorts_before("wal_1.log", "wal_1.log.lock"));
    assert!(sorts_before("wal_10.log", "wal_9.log"));
    assert!(sorts_before("Z", "a"));
    assert!(sorts_before("z", "é"));
    assert_eq!(sorts_before("abc", "abd"), "abc" < "abd");
}

#[test]
fn newest_segment_comes_first() {
    let files = names(&[
        "logs/wal_20250101_000000_000000001.log",
        "logs/wal_20251123_041843_000000007.log",
        "logs/wal_20250101_000000_000000001.log.lock",
        "logs/wal_20250630_120000_000000000.log",
    ]);
    assert_eq!(
        recovery_order(&files),
        names(&[
            "logs/wal_20251123_041843_000000007.log",
            "logs/wal_20250630_120000_000000000.log",
            "logs/wal_20250101_000000_000000001.log",
        ])
    );
}

#[test]
fn order_of_an_empty_directory_is_empty() {
    assert_eq!(recovery_order(&Vec::new()), Vec::<String>::new());
    assert_eq!(recovery_order(&names(&["a.lock"])), Vec::<String>::new());
}

#[test]
fn equal_names_are_both_kept() {
    assert_eq!(recovery_order(&names(&["b", "a", "b"])), names(&["b", "b", "a"]));
}

#[test]
fn sorted_input_is_reversed_not_kept() {
    let files = names(&["a", "b", "c", "d"]);
    assert_eq!(recovery_order(&files), names(&["d", "c", "b", "a"]));
}
