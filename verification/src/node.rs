//! The nodes of the mirror and how they are built from a snapshot.

use crate::error::FsError;
use crate::scan::{
    all_or_first_failure, lemma_failure_stays, lemma_one_more_step, lemma_scans, populated,
    resized, resized_each, scan, scan_entries, scans,
};
use crate::snapshot::{
    entries_below, lemma_depth_bound, listing_of, paths_of, room, sound, stat_of, FileStat,
    FsSnapshot, Probe, ProbeView,
};
use std::time::SystemTime;
use vstd::prelude::*;

verus! {

/// `std::time::SystemTime`, declared so that a timestamp can be held and
/// handed on. Nothing is said of what one holds.
#[verifier::external_type_specification]
#[verifier::external_body]
pub struct ExSystemTime(SystemTime);

/// Whether a node is a file or a directory.
#[derive(Debug, Clone, Copy, PartialEq, Eq, Structural)]
pub enum NodeType {
    File,
    Directory,
}

/// Timestamps of an entry. Each is absent where the platform cannot supply it.
#[derive(Debug, Clone, Copy)]
pub struct ExtendedMetadata {
    pub modified: Option<SystemTime>,
    pub accessed: Option<SystemTime>,
    pub created: Option<SystemTime>,
}

impl ExtendedMetadata {
    /// The timestamps that `snap` holds for `path`.
    pub fn from_path(path: &str, snap: &FsSnapshot) -> (r: Result<ExtendedMetadata, FsError>)
        ensures
            sound(snap@),
            r == match stat_of(snap@, path@) {
                Ok((_, st)) => Ok::<ExtendedMetadata, FsError>(st.metadata),
                Err(e) => Err::<ExtendedMetadata, FsError>(e),
            },
    {
        match snap.get(path) {
            None => Err(FsError::NotFound),
            Some(Probe::Unreadable(e)) => Err(*e),
            Some(Probe::File(st)) => Ok(st.metadata),
            Some(Probe::Directory(st, _)) => Ok(st.metadata),
        }
    }
}

/// One filesystem entry of the mirror.
#[derive(Debug)]
pub struct Node {
    /// Filesystem path of the entry.
    pub path: String,
    /// Whether the entry is a file or a directory.
    pub node_type: NodeType,
    /// Timestamps read when the node was made.
    pub metadata: ExtendedMetadata,
    /// The entries of a directory once it was listed; `None` for a file and
    /// for a directory that was not listed yet.
    pub children: Option<Vec<Node>>,
    /// Byte length of a file; for a directory the sum over its children.
    pub size: u64,
}

/// The mathematical value of a [`Node`].
pub ghost struct NodeView {
    pub path: Seq<char>,
    pub node_type: NodeType,
    pub metadata: ExtendedMetadata,
    pub children: Option<Seq<NodeView>>,
    pub size: nat,
}

impl Node {
    /// The value of this node: its own fields and the values of its children.
    pub open spec fn model(self) -> NodeView
        decreases self,
    {
        NodeView {
            path: self.path@,
            node_type: self.node_type,
            metadata: self.metadata,
            children: match self.children {
                Some(v) => Some(
                    Seq::new(
                        v@.len(),
                        |i: int|
                            if 0 <= i < v@.len() {
                                v@[i].model()
                            } else {
                                arbitrary()
                            },
                    ),
                ),
                None => None,
            },
            size: self.size as nat,
        }
    }
}

impl View for Node {
    type V = NodeView;

    open spec fn view(&self) -> NodeView {
        self.model()
    }
}

/// The sum of the sizes of `nodes`.
pub open spec fn total_size(nodes: Seq<NodeView>) -> nat
    decreases nodes.len(),
{
    if nodes.len() == 0 {
        0
    } else {
        total_size(nodes.drop_last()) + nodes.last().size
    }
}

/// The values of the nodes of a sequence.
pub open spec fn views(nodes: Seq<Node>) -> Seq<NodeView> {
    Seq::new(nodes.len(), |i: int| nodes[i]@)
}

/// The value of a node holds the values of its children.
pub proof fn lemma_view(node: Node)
    ensures
        node@.path == node.path@,
        node@.node_type == node.node_type,
        node@.metadata == node.metadata,
        node@.size == node.size,
        node@.children == match node.children {
            Some(v) => Some(views(v@)),
            None => None,
        },
{
    if let Some(v) = node.children {
        assert(node@.children->0 =~= views(v@));
    }
}

/// The value of a node, or the failure in its place.
pub open spec fn view_of(r: Result<Node, FsError>) -> Result<NodeView, FsError> {
    match r {
        Ok(node) => Ok(node@),
        Err(e) => Err(e),
    }
}

/// The sum of the first `n` sizes is no more than the sum of all.
pub proof fn lemma_total_size_grows(nodes: Seq<NodeView>, n: int)
    requires
        0 <= n <= nodes.len(),
    ensures
        total_size(nodes.take(n)) <= total_size(nodes),
    decreases nodes.len() - n,
{
    if n == nodes.len() {
        assert(nodes.take(n) =~= nodes);
    } else {
        assert(nodes.take(n + 1).drop_last() =~= nodes.take(n));
        lemma_total_size_grows(nodes, n + 1);
    }
}

/// Adds up the sizes of `nodes`; `None` where the sum does not fit.
pub(crate) fn sum_sizes(nodes: &Vec<Node>) -> (r: Option<u64>)
    ensures
        match r {
            Some(total) => total == total_size(views(nodes@)),
            None => total_size(views(nodes@)) > u64::MAX,
        },
{
    let mut total: u64 = 0;
    let mut i: usize = 0;
    while i < nodes.len()
        invariant
            i <= nodes.len(),
            total == total_size(views(nodes@).take(i as int)),
        decreases nodes.len() - i,
    {
        proof {
            assert(views(nodes@).take(i + 1).drop_last() =~= views(nodes@).take(i as int));
        }
        match total.checked_add(nodes[i].size) {
            None => {
                proof {
                    lemma_total_size_grows(views(nodes@), i + 1);
                }
                return None;
            },
            Some(t) => {
                total = t;
            },
        }
        i += 1;
    }
    assert(views(nodes@).take(i as int) =~= views(nodes@));
    Some(total)
}

/// Scans the entries listed for the directory `dir`, in order.
fn scan_listing(dir: &String, entries: &Vec<String>, snap: &FsSnapshot) -> (r: Result<
    Vec<Node>,
    FsError,
>)
    requires
        sound(snap@),
        listing_of(snap@, dir@) == Ok::<Seq<Seq<char>>, FsError>(paths_of(entries@)),
    ensures
        match r {
            Ok(children) => scan_entries(snap@, dir@, paths_of(entries@)) == Ok::<
                Seq<NodeView>,
                FsError,
            >(views(children@)),
            Err(e) => scan_entries(snap@, dir@, paths_of(entries@)) == Err::<
                Seq<NodeView>,
                FsError,
            >(e),
        },
    decreases room(snap@, dir@), 0nat,
{
    let ghost paths = paths_of(entries@);
    let ghost steps = scans(snap@, dir@, paths);
    proof {
        lemma_scans(snap@, dir@, paths);
        assert(steps.take(0) =~= Seq::empty());
    }
    let mut children: Vec<Node> = Vec::new();
    assert(views(children@) =~= Seq::empty());
    let mut i: usize = 0;
    while i < entries.len()
        invariant
            i <= entries.len(),
            sound(snap@),
            listing_of(snap@, dir@) == Ok::<Seq<Seq<char>>, FsError>(paths),
            paths == paths_of(entries@),
            steps == scans(snap@, dir@, paths),
            steps.len() == paths.len(),
            forall|j: int| 0 <= j < paths.len() ==> #[trigger] steps[j] == scan(snap@, paths[j]),
            all_or_first_failure(steps.take(i as int)) == Ok::<Seq<NodeView>, FsError>(
                views(children@),
            ),
        decreases entries.len() - i,
    {
        proof {
            lemma_depth_bound(snap@);
            assert(entries_below(dir@, snap@[dir@]));
            assert(snap@[dir@] matches ProbeView::Directory(_, Ok(l)) && l == paths);
            assert(paths[i as int].len() > dir@.len());
            lemma_one_more_step(steps, i as int);
        }
        match Node::new(entries[i].clone(), snap) {
            Err(e) => {
                proof {
                    lemma_failure_stays(steps, i + 1, e);
                }
                return Err(e);
            },
            Ok(child) => {
                let ghost before = views(children@);
                children.push(child);
                assert(views(children@) =~= before.push(child@));
            },
        }
        i += 1;
    }
    assert(steps.take(i as int) =~= steps);
    Ok(children)
}

/// Lists the directory `dir` and scans each entry.
pub(crate) fn scan_children(dir: &String, snap: &FsSnapshot) -> (r: Result<Vec<Node>, FsError>)
    ensures
        sound(snap@),
        match listing_of(snap@, dir@) {
            Err(e) => r == Err::<Vec<Node>, FsError>(e),
            Ok(entries) => match r {
                Ok(children) => scan_entries(snap@, dir@, entries) == Ok::<Seq<NodeView>, FsError>(
                    views(children@),
                ),
                Err(e) => scan_entries(snap@, dir@, entries) == Err::<Seq<NodeView>, FsError>(e),
            },
        },
{
    match snap.get(dir.as_str()) {
        None => Err(FsError::NotFound),
        Some(Probe::Unreadable(e)) => Err(*e),
        Some(Probe::File(_)) => Err(FsError::NotADirectory),
        Some(Probe::Directory(_, Err(e))) => Err(*e),
        Some(Probe::Directory(_, Ok(entries))) => scan_listing(dir, entries, snap),
    }
}

/// Type and metadata of `path`, as `snap` holds them.
fn stat(path: &String, snap: &FsSnapshot) -> (r: Result<(bool, FileStat), FsError>)
    ensures
        sound(snap@),
        r == stat_of(snap@, path@),
{
    match snap.get(path.as_str()) {
        None => Err(FsError::NotFound),
        Some(Probe::Unreadable(e)) => Err(*e),
        Some(Probe::File(st)) => Ok((false, *st)),
        Some(Probe::Directory(st, _)) => Ok((true, *st)),
    }
}

/// A copy of `node` with its size brought up to date.
fn resized_copy(node: &Node, snap: &FsSnapshot) -> (r: Result<Node, FsError>)
    ensures
        view_of(r) == resized(node@, snap@),
    decreases node, 1nat,
{
    proof {
        lemma_view(*node);
    }
    match node.node_type {
        NodeType::File => match stat(&node.path, snap) {
            Err(e) => Err(e),
            Ok((_, st)) => {
                let children = match &node.children {
                    None => None,
                    Some(v) => Some(copies(v)),
                };
                let copy = Node {
                    path: node.path.clone(),
                    node_type: NodeType::File,
                    metadata: node.metadata,
                    children,
                    size: st.size,
                };
                proof {
                    lemma_view(copy);
                }
                Ok(copy)
            },
        },
        NodeType::Directory => {
            let current = match &node.children {
                None => scan_children(&node.path, snap),
                Some(v) => resized_copies(v, snap),
            };
            match current {
                Err(e) => Err(e),
                Ok(children) => match sum_sizes(&children) {
                    None => Err(FsError::TooLarge),
                    Some(size) => {
                        let copy = Node {
                            path: node.path.clone(),
                            node_type: NodeType::Directory,
                            metadata: node.metadata,
                            children: Some(children),
                            size,
                        };
                        proof {
                            lemma_view(copy);
                        }
                        Ok(copy)
                    },
                },
            }
        },
    }
}

/// Copies of `nodes`, each with its size brought up to date.
fn resized_copies(nodes: &Vec<Node>, snap: &FsSnapshot) -> (r: Result<Vec<Node>, FsError>)
    ensures
        match r {
            Ok(current) => all_or_first_failure(resized_each(views(nodes@), snap@)) == Ok::<
                Seq<NodeView>,
                FsError,
            >(views(current@)),
            Err(e) => all_or_first_failure(resized_each(views(nodes@), snap@)) == Err::<
                Seq<NodeView>,
                FsError,
            >(e),
        },
    decreases nodes, 0nat,
{
    let ghost steps = resized_each(views(nodes@), snap@);
    let mut current: Vec<Node> = Vec::new();
    let mut i: usize = 0;
    proof {
        assert(steps.take(0) =~= Seq::empty());
        assert(views(current@) =~= Seq::empty());
    }
    while i < nodes.len()
        invariant
            i <= nodes.len(),
            steps == resized_each(views(nodes@), snap@),
            all_or_first_failure(steps.take(i as int)) == Ok::<Seq<NodeView>, FsError>(
                views(current@),
            ),
        decreases nodes.len() - i,
    {
        proof {
            lemma_one_more_step(steps, i as int);
        }
        match resized_copy(&nodes[i], snap) {
            Err(e) => {
                proof {
                    lemma_failure_stays(steps, i + 1, e);
                }
                return Err(e);
            },
            Ok(node) => {
                let ghost before = views(current@);
                current.push(node);
                assert(views(current@) =~= before.push(node@));
            },
        }
        i += 1;
    }
    assert(steps.take(i as int) =~= steps);
    Ok(current)
}

/// A copy of each of `nodes`.
fn copies(nodes: &Vec<Node>) -> (r: Vec<Node>)
    ensures
        views(r@) == views(nodes@),
    decreases nodes, 0nat,
{
    let mut r: Vec<Node> = Vec::new();
    let mut i: usize = 0;
    while i < nodes.len()
        invariant
            i <= nodes.len(),
            views(r@) =~= views(nodes@).take(i as int),
        decreases nodes.len() - i,
    {
        let node = nodes[i].clone();
        let ghost before = views(r@);
        r.push(node);
        assert(views(r@) =~= before.push(node@));
        i += 1;
    }
    assert(views(nodes@).take(i as int) =~= views(nodes@));
    r
}

impl Clone for Node {
    /// A copy with the same value.
    fn clone(&self) -> (r: Node)
        ensures
            r@ == self@,
        decreases self, 1nat,
    {
        let children = match &self.children {
            None => None,
            Some(v) => Some(copies(v)),
        };
        let r = Node {
            path: self.path.clone(),
            node_type: self.node_type,
            metadata: self.metadata,
            children,
            size: self.size,
        };
        proof {
            lemma_view(*self);
            lemma_view(r);
        }
        r
    }
}

impl Node {
    /// Whether this node is a file, for use in contracts.
    pub open spec fn is_file_spec(&self) -> bool {
        self.node_type == NodeType::File
    }

    /// Whether this node is a directory, for use in contracts.
    pub open spec fn is_dir_spec(&self) -> bool {
        self.node_type == NodeType::Directory
    }

    /// A node is a file or a directory and never both.
    pub proof fn lemma_file_or_directory(self)
        ensures
            self.is_file() == !self.is_dir(),
            self.is_file() <==> self.node_type == NodeType::File,
            self.is_dir() <==> self.node_type == NodeType::Directory,
    {
    }

    /// Builds the node of `path` from what `snap` holds: reads its type and
    /// metadata and, for a directory, scans every listed entry in turn and
    /// adds up the sizes. The first failure met is returned and no node is
    /// made.
    pub fn new(path: String, snap: &FsSnapshot) -> (r: Result<Node, FsError>)
        ensures
            sound(snap@),
            view_of(r) == scan(snap@, path@),
        decreases room(snap@, path@), 1nat,
    {
        match snap.get(path.as_str()) {
            None => Err(FsError::NotFound),
            Some(Probe::Unreadable(e)) => Err(*e),
            Some(Probe::File(st)) => Ok(
                Node {
                    path,
                    node_type: NodeType::File,
                    metadata: st.metadata,
                    children: None,
                    size: st.size,
                },
            ),
            Some(Probe::Directory(_, Err(e))) => Err(*e),
            Some(Probe::Directory(st, Ok(entries))) => {
                match scan_listing(&path, entries, snap) {
                    Err(e) => Err(e),
                    Ok(children) => match sum_sizes(&children) {
                        None => Err(FsError::TooLarge),
                        Some(size) => {
                            let node = Node {
                                path,
                                node_type: NodeType::Directory,
                                metadata: st.metadata,
                                children: Some(children),
                                size,
                            };
                            proof {
                                lemma_view(node);
                            }
                            Ok(node)
                        },
                    },
                }
            },
        }
    }

    /// Reads the children anew. Nothing happens to a file. For a directory
    /// the entries that `snap` lists are scanned, each with everything below
    /// it, and take the place of the children held before. On a failure the
    /// node stays as it was.
    pub fn populate_children(&mut self, snap: &FsSnapshot) -> (r: Result<(), FsError>)
        ensures
            sound(snap@),
            match r {
                Ok(_) => populated(old(self)@, snap@) == Ok::<NodeView, FsError>(final(self)@),
                Err(e) => populated(old(self)@, snap@) == Err::<NodeView, FsError>(e)
                    && *final(self) == *old(self),
            },
    {
        snap.is_sound();
        proof {
            lemma_view(*self);
        }
        if self.is_dir() {
            match scan_children(&self.path, snap) {
                Err(e) => {
                    return Err(e);
                },
                Ok(children) => {
                    self.children = Some(children);
                },
            }
        }
        proof {
            lemma_view(*self);
        }
        Ok(())
    }

    /// Brings the size up to date and returns it. A file gets the byte
    /// length that `snap` holds for its path. A directory that was not
    /// listed yet is listed first; then each child is brought up to date and
    /// the sizes are added up. On a failure the node stays as it was.
    pub fn update_size(&mut self, snap: &FsSnapshot) -> (r: Result<u64, FsError>)
        ensures
            sound(snap@),
            match r {
                Ok(size) => resized(old(self)@, snap@) == Ok::<NodeView, FsError>(final(self)@)
                    && size == final(self).size,
                Err(e) => resized(old(self)@, snap@) == Err::<NodeView, FsError>(e)
                    && *final(self) == *old(self),
            },
    {
        snap.is_sound();
        proof {
            lemma_view(*self);
        }
        match self.node_type {
            NodeType::File => match stat(&self.path, snap) {
                Err(e) => {
                    return Err(e);
                },
                Ok((_, st)) => {
                    self.size = st.size;
                },
            },
            NodeType::Directory => {
                let current = match &self.children {
                    None => scan_children(&self.path, snap),
                    Some(v) => resized_copies(v, snap),
                };
                match current {
                    Err(e) => {
                        return Err(e);
                    },
                    Ok(children) => match sum_sizes(&children) {
                        None => {
                            return Err(FsError::TooLarge);
                        },
                        Some(size) => {
                            self.children = Some(children);
                            self.size = size;
                        },
                    },
                }
            },
        }
        proof {
            lemma_view(*self);
        }
        Ok(self.size)
    }

    /// Returns `true` if this node is a directory.
    #[verifier::when_used_as_spec(is_dir_spec)]
    pub fn is_dir(&self) -> (b: bool)
        ensures
            b == (self.node_type == NodeType::Directory),
            b == !self.is_file(),
    {
        matches!(self.node_type, NodeType::Directory)
    }

    /// Returns `true` if this node is a file.
    #[verifier::when_used_as_spec(is_file_spec)]
    pub fn is_file(&self) -> (b: bool)
        ensures
            b == (self.node_type == NodeType::File),
            b == !self.is_dir(),
    {
        matches!(self.node_type, NodeType::File)
    }
}

} // verus!
