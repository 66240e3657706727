use fstree::{ExtendedMetadata, FileStat, FsError, FsSnapshot, Node, Probe, Tree};

fn no_times() -> ExtendedMetadata {
    ExtendedMetadata { modified: None, accessed: None, created: None }
}

fn file(size: u64) -> Probe {
    Probe::File(FileStat { size, metadata: no_times() })
}

fn dir(entries: &[&str]) -> Probe {
    Probe::Directory(
        FileStat { size: 4096, metadata: no_times() },
        Ok(entries.iter().map(|e| e.to_string()).collect()),
    )
}

fn snapshot(records: Vec<(&str, Probe)>) -> FsSnapshot {
    let mut snap = FsSnapshot::new();
    for (path, probe) in records {
        assert!(snap.insert(path.to_string(), probe));
    }
    snap
}

fn sample() -> FsSnapshot {
    snapshot(vec![
        ("r", dir(&["r/f1", "r/sub"])),
        ("r/f1", file(100)),
        ("r/sub", dir(&["r/sub/f2"])),
        ("r/sub/f2", file(50)),
    ])
}

fn walk(tree: &Tree) -> Vec<String> {
    let mut it = tree.iter();
    let mut paths = Vec::new();
    while let Some(node) = it.next() {
        paths.push(node.path.clone());
    }
    paths
}

#[test]
fn two_files_and_a_subdirectory() {
    let tree = Tree::new("r", &sample()).unwrap();
    assert_eq!(tree.head.size, 150);
    assert_eq!(tree.get_node("r/sub").unwrap().size, 50);
    assert_eq!(walk(&tree), vec!["r", "r/f1", "r/sub", "r/sub/f2"]);
    let files: Vec<&Node> = tree.search(|n| n.is_file());
    let paths: Vec<&str> = files.iter().map(|n| n.path.as_str()).collect();
    assert_eq!(paths, vec!["r/f1", "r/sub/f2"]);
}

#[test]
fn refresh_after_a_file_was_deleted() {
    let mut tree = Tree::new("r", &sample()).unwrap();
    let after = snapshot(vec![
        ("r", dir(&["r/f1", "r/sub"])),
        ("r/f1", file(100)),
        ("r/sub", dir(&[])),
    ]);
    assert_eq!(tree.refresh(&after), Ok(()));
    assert_eq!(tree.get_node("r/sub").unwrap().size, 0);
    assert_eq!(tree.head.size, 100);
    assert!(tree.get_node("r/sub/f2").is_none());
}

#[test]
fn create_dir_with_missing_parents() {
    let mut tree = Tree::new("r", &sample()).unwrap();
    assert_eq!(tree.target("x/y/z"), "r/x/y/z");
    let after = snapshot(vec![
        ("r", dir(&["r/f1", "r/sub", "r/x"])),
        ("r/f1", file(100)),
        ("r/sub", dir(&["r/sub/f2"])),
        ("r/sub/f2", file(50)),
        ("r/x", dir(&["r/x/y"])),
        ("r/x/y", dir(&["r/x/y/z"])),
        ("r/x/y/z", dir(&[])),
    ]);
    let made = tree.create_dir("x/y/z", &after).unwrap();
    assert_eq!(made.path, "r/x/y/z");
    assert!(made.is_dir());
    assert!(tree.get_node("r/x").unwrap().is_dir());
    assert!(tree.get_node("r/x/y").unwrap().is_dir());
    assert_eq!(tree.head.size, 150);
}

#[test]
fn created_directory_is_listed_and_empty() {
    let mut tree = Tree::new("r", &snapshot(vec![("r", dir(&[]))])).unwrap();
    let after = snapshot(vec![
        ("r", dir(&["r/a"])),
        ("r/a", dir(&["r/a/b"])),
        ("r/a/b", dir(&[])),
    ]);
    let made = tree.create_dir("a/b", &after).unwrap();
    assert!(made.is_dir());
    assert_eq!(made.children.as_ref().map(|c| c.len()), Some(0));
    let found = tree.get_node("r/a/b").unwrap();
    assert!(found.is_dir());
    assert!(!found.is_file());
    assert_eq!(found.children.as_ref().map(|c| c.len()), Some(0));
    assert_eq!(found.size, 0);
}

#[test]
fn create_dir_that_vanished_is_not_found() {
    let mut tree = Tree::new("r", &sample()).unwrap();
    let r = tree.create_dir("gone", &sample());
    assert_eq!(r.err(), Some(FsError::NotFound));
    assert_eq!(tree.head.size, 150);
}

#[test]
fn create_dir_passes_a_failed_refresh_on() {
    let mut tree = Tree::new("r", &sample()).unwrap();
    let broken = snapshot(vec![(
        "r",
        Probe::Directory(
            FileStat { size: 0, metadata: no_times() },
            Err(FsError::PermissionDenied),
        ),
    )]);
    let r = tree.create_dir("a", &broken);
    assert_eq!(r.err(), Some(FsError::PermissionDenied));
    assert_eq!(walk(&tree), vec!["r", "r/f1", "r/sub", "r/sub/f2"]);
    assert_eq!(tree.head.size, 150);
}

#[test]
fn refresh_twice_gives_the_same_sizes() {
    let mut tree = Tree::new("r", &snapshot(vec![("r", dir(&[]))])).unwrap();
    let snap = sample();
    assert_eq!(tree.refresh(&snap), Ok(()));
    let first: Vec<(String, u64)> = {
        let mut it = tree.iter();
        let mut v = Vec::new();
        while let Some(n) = it.next() {
            v.push((n.path.clone(), n.size));
        }
        v
    };
    assert_eq!(tree.refresh(&snap), Ok(()));
    let second: Vec<(String, u64)> = {
        let mut it = tree.iter();
        let mut v = Vec::new();
        while let Some(n) = it.next() {
            v.push((n.path.clone(), n.size));
        }
        v
    };
    assert_eq!(first, second);
    assert_eq!(
        first,
        vec![
            ("r".to_string(), 150),
            ("r/f1".to_string(), 100),
            ("r/sub".to_string(), 50),
            ("r/sub/f2".to_string(), 50),
        ]
    );
}
