use fstree::{ExtendedMetadata, FileStat, FsError, FsSnapshot, Node, NodeType, Probe};
use std::time::{Duration, SystemTime};

fn no_times() -> ExtendedMetadata {
    ExtendedMetadata { modified: None, accessed: None, created: None }
}

fn file(size: u64) -> Probe {
    Probe::File(FileStat { size, metadata: no_times() })
}

fn dir(entries: &[&str]) -> Probe {
    Probe::Directory(
        FileStat { size: 4096, metadata: no_times() },
        Ok(entries.iter().map(|e| e.to_string()).collect()),
    )
}

fn snapshot(records: Vec<(&str, Probe)>) -> FsSnapshot {
    let mut snap = FsSnapshot::new();
    for (path, probe) in records {
        assert!(snap.insert(path.to_string(), probe));
    }
    snap
}

fn bare(path: &str, node_type: NodeType) -> Node {
    Node { path: path.to_string(), node_type, metadata: no_times(), children: None, size: 0 }
}

#[test]
fn a_node_is_a_file_or_a_directory() {
    let f = bare("f", NodeType::File);
    let d = bare("d", NodeType::Directory);
    assert!(f.is_file() && !f.is_dir());
    assert!(d.is_dir() && !d.is_file());
    assert_eq!(f.is_file(), !f.is_dir());
    assert_eq!(d.is_file(), !d.is_dir());
}

#[test]
fn new_file_node_has_its_length_and_no_children() {
    let snap = snapshot(vec![("f", file(7))]);
    let node = Node::new("f".to_string(), &snap).unwrap();
    assert_eq!(node.path, "f");
    assert_eq!(node.node_type, NodeType::File);
    assert_eq!(node.size, 7);
    assert!(node.children.is_none());
}

#[test]
fn new_empty_directory_has_children_that_are_none_in_number() {
    let snap = snapshot(vec![("d", dir(&[]))]);
    let node = Node::new("d".to_string(), &snap).unwrap();
    assert_eq!(node.node_type, NodeType::Directory);
    assert_eq!(node.children.as_ref().map(|c| c.len()), Some(0));
    assert_eq!(node.size, 0);
}

#[test]
fn new_keeps_the_timestamps() {
    let t = SystemTime::UNIX_EPOCH + Duration::from_secs(1_000);
    let meta = ExtendedMetadata { modified: Some(t), accessed: None, created: Some(t) };
    let mut snap = FsSnapshot::new();
    assert!(snap.insert("f".to_string(), Probe::File(FileStat { size: 1, metadata: meta })));
    let node = Node::new("f".to_string(), &snap).unwrap();
    assert_eq!(node.metadata.modified, Some(t));
    assert_eq!(node.metadata.accessed, None);
    assert_eq!(node.metadata.created, Some(t));
    let read = ExtendedMetadata::from_path("f", &snap).unwrap();
    assert_eq!(read.modified, Some(t));
    assert_eq!(ExtendedMetadata::from_path("g", &snap).err(), Some(FsError::NotFound));
}

#[test]
fn new_keeps_the_order_of_enumeration() {
    let snap = snapshot(vec![
        ("d", dir(&["d/z", "d/a", "d/m"])),
        ("d/z", file(1)),
        ("d/a", file(2)),
        ("d/m", file(3)),
    ]);
    let node = Node::new("d".to_string(), &snap).unwrap();
    let names: Vec<&str> = node.children.as_ref().unwrap().iter().map(|c| c.path.as_str()).collect();
    assert_eq!(names, vec!["d/z", "d/a", "d/m"]);
    assert_eq!(node.size, 6);
}

#[test]
fn new_fails_where_the_path_is_missing() {
    let snap = FsSnapshot::new();
    assert_eq!(Node::new("nowhere".to_string(), &snap).err(), Some(FsError::NotFound));
}

#[test]
fn new_fails_where_the_path_may_not_be_read() {
    let snap = snapshot(vec![("p", Probe::Unreadable(FsError::PermissionDenied))]);
    assert_eq!(Node::new("p".to_string(), &snap).err(), Some(FsError::PermissionDenied));
}

#[test]
fn new_fails_where_an_entry_disappeared() {
    let snap = snapshot(vec![("d", dir(&["d/here", "d/gone"])), ("d/here", file(1))]);
    assert_eq!(Node::new("d".to_string(), &snap).err(), Some(FsError::NotFound));
}

#[test]
fn new_fails_where_a_listing_failed_deep_down() {
    let snap = snapshot(vec![
        ("d", dir(&["d/a"])),
        ("d/a", dir(&["d/a/b"])),
        (
            "d/a/b",
            Probe::Directory(FileStat { size: 0, metadata: no_times() }, Err(FsError::Other)),
        ),
    ]);
    assert_eq!(Node::new("d".to_string(), &snap).err(), Some(FsError::Other));
}

#[test]
fn new_returns_the_first_failure_of_the_walk() {
    let snap = snapshot(vec![
        ("d", dir(&["d/a", "d/b", "d/c"])),
        ("d/a", file(1)),
        ("d/b", Probe::Unreadable(FsError::PermissionDenied)),
        ("d/c", Probe::Unreadable(FsError::Other)),
    ]);
    assert_eq!(Node::new("d".to_string(), &snap).err(), Some(FsError::PermissionDenied));
}

#[test]
fn new_fails_where_the_sizes_do_not_fit() {
    let snap = snapshot(vec![
        ("d", dir(&["d/a", "d/b"])),
        ("d/a", file(u64::MAX)),
        ("d/b", file(1)),
    ]);
    assert_eq!(Node::new("d".to_string(), &snap).err(), Some(FsError::TooLarge));
    let fits = snapshot(vec![
        ("d", dir(&["d/a", "d/b"])),
        ("d/a", file(u64::MAX - 1)),
        ("d/b", file(1)),
    ]);
    assert_eq!(Node::new("d".to_string(), &fits).unwrap().size, u64::MAX);
}

#[test]
fn populate_children_does_nothing_to_a_file() {
    let snap = snapshot(vec![("f", file(7))]);
    let mut node = bare("f", NodeType::File);
    assert_eq!(node.populate_children(&snap), Ok(()));
    assert!(node.children.is_none());
    assert_eq!(node.size, 0);
}

#[test]
fn populate_children_replaces_the_children_and_leaves_the_size() {
    let old = snapshot(vec![("d", dir(&["d/a"])), ("d/a", file(5))]);
    let mut node = Node::new("d".to_string(), &old).unwrap();
    assert_eq!(node.size, 5);
    let new = snapshot(vec![("d", dir(&["d/b", "d/c"])), ("d/b", file(1)), ("d/c", file(2))]);
    assert_eq!(node.populate_children(&new), Ok(()));
    let names: Vec<&str> = node.children.as_ref().unwrap().iter().map(|c| c.path.as_str()).collect();
    assert_eq!(names, vec!["d/b", "d/c"]);
    assert_eq!(node.size, 5);
    assert_eq!(node.update_size(&new), Ok(3));
    assert_eq!(node.size, 3);
}

#[test]
fn populate_children_fails_on_what_is_no_directory() {
    let snap = snapshot(vec![("d", file(1))]);
    let mut node = bare("d", NodeType::Directory);
    assert_eq!(node.populate_children(&snap), Err(FsError::NotADirectory));
    assert!(node.children.is_none());
}

#[test]
fn populate_children_leaves_the_node_alone_on_failure() {
    let old = snapshot(vec![("d", dir(&["d/a"])), ("d/a", file(5))]);
    let mut node = Node::new("d".to_string(), &old).unwrap();
    let broken = snapshot(vec![("d", dir(&["d/a", "d/b"])), ("d/a", file(6))]);
    assert_eq!(node.populate_children(&broken), Err(FsError::NotFound));
    assert_eq!(node.children.as_ref().unwrap().len(), 1);
    assert_eq!(node.children.as_ref().unwrap()[0].size, 5);
}

#[test]
fn update_size_reads_the_length_of_a_file_again() {
    let mut node = bare("f", NodeType::File);
    assert_eq!(node.update_size(&snapshot(vec![("f", file(7))])), Ok(7));
    assert_eq!(node.size, 7);
    assert_eq!(node.update_size(&snapshot(vec![("f", file(9))])), Ok(9));
    assert_eq!(node.size, 9);
}

#[test]
fn update_size_lists_a_directory_that_was_not_listed() {
    let snap = snapshot(vec![
        ("d", dir(&["d/a", "d/s"])),
        ("d/a", file(4)),
        ("d/s", dir(&["d/s/b"])),
        ("d/s/b", file(6)),
    ]);
    let mut node = bare("d", NodeType::Directory);
    assert!(node.children.is_none());
    assert_eq!(node.update_size(&snap), Ok(10));
    assert_eq!(node.size, 10);
    let kids = node.children.as_ref().unwrap();
    assert_eq!(kids.len(), 2);
    assert_eq!(kids[1].size, 6);
}

#[test]
fn update_size_keeps_the_children_it_has() {
    let old = snapshot(vec![("d", dir(&["d/a", "d/b"])), ("d/a", file(1)), ("d/b", file(2))]);
    let mut node = Node::new("d".to_string(), &old).unwrap();
    let new = snapshot(vec![
        ("d", dir(&["d/a", "d/b", "d/c"])),
        ("d/a", file(10)),
        ("d/b", file(20)),
        ("d/c", file(30)),
    ]);
    assert_eq!(node.update_size(&new), Ok(30));
    assert_eq!(node.children.as_ref().unwrap().len(), 2);
    assert_eq!(node.children.as_ref().unwrap()[0].size, 10);
    assert_eq!(node.children.as_ref().unwrap()[1].size, 20);
}

#[test]
fn update_size_leaves_the_node_alone_on_failure() {
    let old = snapshot(vec![("d", dir(&["d/a", "d/b"])), ("d/a", file(1)), ("d/b", file(2))]);
    let mut node = Node::new("d".to_string(), &old).unwrap();
    let new = snapshot(vec![("d", dir(&["d/a", "d/b"])), ("d/a", file(10))]);
    assert_eq!(node.update_size(&new), Err(FsError::NotFound));
    assert_eq!(node.size, 3);
    assert_eq!(node.children.as_ref().unwrap()[0].size, 1);
}

#[test]
fn update_size_is_the_sum_of_all_files_below() {
    let snap = snapshot(vec![
        ("d", dir(&["d/a", "d/s", "d/t"])),
        ("d/a", file(1)),
        ("d/s", dir(&["d/s/b", "d/s/u"])),
        ("d/s/b", file(20)),
        ("d/s/u", dir(&["d/s/u/c"])),
        ("d/s/u/c", file(300)),
        ("d/t", dir(&[])),
    ]);
    let mut node = bare("d", NodeType::Directory);
    assert_eq!(node.update_size(&snap), Ok(321));
}

#[test]
fn clone_copies_the_whole_subtree() {
    let snap = snapshot(vec![
        ("d", dir(&["d/a", "d/s"])),
        ("d/a", file(4)),
        ("d/s", dir(&["d/s/b"])),
        ("d/s/b", file(6)),
    ]);
    let node = Node::new("d".to_string(), &snap).unwrap();
    let copy = node.clone();
    assert_eq!(copy.path, "d");
    assert_eq!(copy.size, 10);
    assert_eq!(copy.node_type, NodeType::Directory);
    let kids = copy.children.as_ref().unwrap();
    assert_eq!(kids.len(), 2);
    assert_eq!(kids[0].path, "d/a");
    assert_eq!(kids[1].children.as_ref().unwrap()[0].path, "d/s/b");
    assert_eq!(kids[1].children.as_ref().unwrap()[0].size, 6);
}
