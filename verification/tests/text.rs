use fstree::path::join;
use fstree::text::push_decimal;
use fstree::{ExtendedMetadata, FileStat, FsSnapshot, Node, NodeType, Probe};

fn no_times() -> ExtendedMetadata {
    ExtendedMetadata { modified: None, accessed: None, created: None }
}

fn file(size: u64) -> Probe {
    Probe::File(FileStat { size, metadata: no_times() })
}

fn dir(entries: &[&str]) -> Probe {
    Probe::Directory(
        FileStat { size: 4096, metadata: no_times() },
        Ok(entries.iter().map(|e| e.to_string()).collect()),
    )
}

fn decimal(n: u64) -> String {
    let mut s = String::new();
    push_decimal(&mut s, n);
    s
}

#[test]
fn decimal_digits_of_numbers() {
    assert_eq!(decimal(0), "0");
    assert_eq!(decimal(7), "7");
    assert_eq!(decimal(10), "10");
    assert_eq!(decimal(150), "150");
    assert_eq!(decimal(1234567890), "1234567890");
    assert_eq!(decimal(u64::MAX), "18446744073709551615");
    for n in [9u64, 99, 100, 101, 4096, 999_999] {
        assert_eq!(decimal(n), n.to_string());
    }
}

#[test]
fn decimal_is_appended_to_what_is_there() {
    let mut s = String::from("n=");
    push_decimal(&mut s, 42);
    assert_eq!(s, "n=42");
}

#[test]
fn render_of_a_file() {
    let node = Node {
        path: "r/f1".to_string(),
        node_type: NodeType::File,
        metadata: no_times(),
        children: None,
        size: 100,
    };
    assert_eq!(node.render(), "File: r/f1 (size: 100)");
}

#[test]
fn render_of_a_directory_with_files_and_directories() {
    let mut snap = FsSnapshot::new();
    assert!(snap.insert("r".to_string(), dir(&["r/f1", "r/sub", "r/f3", "r/empty"])));
    assert!(snap.insert("r/f1".to_string(), file(100)));
    assert!(snap.insert("r/sub".to_string(), dir(&["r/sub/f2"])));
    assert!(snap.insert("r/sub/f2".to_string(), file(50)));
    assert!(snap.insert("r/f3".to_string(), file(0)));
    assert!(snap.insert("r/empty".to_string(), dir(&[])));
    let node = Node::new("r".to_string(), &snap).unwrap();
    assert_eq!(
        node.render(),
        "Directory: r (size: 150)\n  File Children:\n    r/f1 (size: 100 bytes)\n    r/f3 (size: 0 bytes)\n  Directory Children:\n    r/sub\n    r/empty\n"
    );
}

#[test]
fn render_of_a_directory_with_files_only() {
    let mut snap = FsSnapshot::new();
    assert!(snap.insert("r".to_string(), dir(&["r/a"])));
    assert!(snap.insert("r/a".to_string(), file(3)));
    let node = Node::new("r".to_string(), &snap).unwrap();
    assert_eq!(node.render(), "Directory: r (size: 3)\n  File Children:\n    r/a (size: 3 bytes)\n");
}

#[test]
fn render_of_a_directory_with_directories_only() {
    let mut snap = FsSnapshot::new();
    assert!(snap.insert("r".to_string(), dir(&["r/d"])));
    assert!(snap.insert("r/d".to_string(), dir(&[])));
    let node = Node::new("r".to_string(), &snap).unwrap();
    assert_eq!(node.render(), "Directory: r (size: 0)\n  Directory Children:\n    r/d\n");
}

#[test]
fn render_of_an_empty_directory() {
    let mut snap = FsSnapshot::new();
    assert!(snap.insert("r".to_string(), dir(&[])));
    let node = Node::new("r".to_string(), &snap).unwrap();
    assert_eq!(node.render(), "Directory: r (size: 0)\n");
}

#[test]
fn render_of_a_directory_that_was_not_listed() {
    let node = Node {
        path: "r".to_string(),
        node_type: NodeType::Directory,
        metadata: no_times(),
        children: None,
        size: 12,
    };
    assert_eq!(node.render(), "Directory: r (size: 12)\n  [Children not populated]");
}

#[test]
fn join_puts_a_separator_between() {
    assert_eq!(join("r", "a/b"), "r/a/b");
    assert_eq!(join("/srv/data", "x"), "/srv/data/x");
}

#[test]
fn join_adds_no_second_separator() {
    assert_eq!(join("r/", "a"), "r/a");
    assert_eq!(join("/", "etc"), "/etc");
}

#[test]
fn join_takes_a_path_from_the_root_as_it_is() {
    assert_eq!(join("r", "/abs/p"), "/abs/p");
    assert_eq!(join("", "/abs"), "/abs");
}

#[test]
fn join_with_an_empty_side() {
    assert_eq!(join("", "a"), "a");
    assert_eq!(join("r", ""), "r/");
    assert_eq!(join("r/", ""), "r/");
    assert_eq!(join("", ""), "");
}

#[test]
fn join_agrees_with_the_paths_of_the_platform() {
    for (base, rel) in [("r", "a/b"), ("r/", "a"), ("r", "/abs"), ("", "a"), ("r", ""), ("/", "x")] {
        let expected = std::path::Path::new(base).join(rel);
        assert_eq!(join(base, rel), expected.to_str().unwrap());
    }
}

#[test]
fn join_counts_characters_not_bytes() {
    assert_eq!(join("d\u{e9}p\u{f4}t", "\u{e9}t\u{e9}"), "d\u{e9}p\u{f4}t/\u{e9}t\u{e9}");
    assert_eq!(join("d\u{e9}/", "x"), "d\u{e9}/x");
}
