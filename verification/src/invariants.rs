//! What holds of the nodes that were built: how their sizes add up.

use crate::error::FsError;
use crate::node::{total_size, NodeType, NodeView};
use crate::scan::{
    all_or_first_failure, lemma_all_succeeded, lemma_scans, resized, resized_each, scan,
    scan_entries, scans,
};
use crate::snapshot::{
    entries_below, lemma_depth_bound, listing_of, room, sound, stat_of, Disk, ProbeView,
};
use vstd::prelude::*;

verus! {

impl NodeView {
    /// This node and every node below it, each before its children and the
    /// children in their order.
    pub open spec fn preorder(self) -> Seq<NodeView>
        decreases self,
    {
        seq![self] + match self.children {
            Some(children) => forest_of(children),
            None => Seq::empty(),
        }
    }

    /// No file has children, here or below.
    pub open spec fn files_are_leaves(self) -> bool
        decreases self,
    {
        &&& self.node_type == NodeType::File ==> self.children is None
        &&& self.children matches Some(children) ==> forall|i: int|
            0 <= i < children.len() ==> (#[trigger] children[i]).files_are_leaves()
    }

    /// Here and below, a file has no children, and a directory is listed
    /// and has the sum of the sizes of its children as its size.
    pub open spec fn settled(self) -> bool
        decreases self,
    {
        match self.node_type {
            NodeType::File => self.children is None,
            NodeType::Directory => {
                &&& self.children matches Some(children)
                &&& self.size == total_size(children)
                &&& forall|i: int| 0 <= i < children.len() ==> (#[trigger] children[i]).settled()
            },
        }
    }
}

/// The nodes of several trees, one tree after the other.
pub open spec fn forest_of(roots: Seq<NodeView>) -> Seq<NodeView>
    decreases roots,
{
    if roots.len() == 0 {
        Seq::empty()
    } else {
        forest_of(roots.drop_last()) + roots.last().preorder()
    }
}

/// The byte lengths of the files among `nodes`, added up.
pub open spec fn file_bytes(nodes: Seq<NodeView>) -> nat
    decreases nodes.len(),
{
    if nodes.len() == 0 {
        0
    } else if nodes.last().node_type == NodeType::File {
        file_bytes(nodes.drop_last()) + nodes.last().size
    } else {
        file_bytes(nodes.drop_last())
    }
}

/// The files of two runs of nodes together have the bytes of both.
pub proof fn lemma_file_bytes_add(front: Seq<NodeView>, back: Seq<NodeView>)
    ensures
        file_bytes(front + back) == file_bytes(front) + file_bytes(back),
    decreases back.len(),
{
    if back.len() == 0 {
        assert(front + back =~= front);
    } else {
        lemma_file_bytes_add(front, back.drop_last());
        assert((front + back).drop_last() =~= front + back.drop_last());
        assert((front + back).last() == back.last());
    }
}

/// The bytes of a single node: its byte length where it is a file.
pub proof fn lemma_file_bytes_of_one(node: NodeView)
    ensures
        file_bytes(seq![node]) == if node.node_type == NodeType::File {
            node.size
        } else {
            0
        },
{
    assert(seq![node].drop_last() =~= Seq::empty());
    assert(file_bytes(Seq::<NodeView>::empty()) == 0);
    assert(seq![node].last() == node);
}

/// The size of a settled node is the sum of the byte lengths of all files
/// at and below it.
pub proof fn lemma_size_is_sum_of_files(node: NodeView)
    requires
        node.settled(),
    ensures
        node.size == file_bytes(node.preorder()),
    decreases node, 1nat,
{
    match node.node_type {
        NodeType::File => {
            assert(node.preorder() =~= seq![node]);
            lemma_file_bytes_of_one(node);
        },
        NodeType::Directory => {
            let children = node.children->0;
            lemma_sizes_are_sums_of_files(children);
            lemma_file_bytes_add(seq![node], forest_of(children));
            lemma_file_bytes_of_one(node);
        },
    }
}

/// The sizes of settled nodes add up to the byte lengths of all files at
/// and below them.
pub proof fn lemma_sizes_are_sums_of_files(nodes: Seq<NodeView>)
    requires
        forall|i: int| 0 <= i < nodes.len() ==> (#[trigger] nodes[i]).settled(),
    ensures
        total_size(nodes) == file_bytes(forest_of(nodes)),
    decreases nodes, 0nat,
{
    if nodes.len() > 0 {
        assert forall|i: int| 0 <= i < nodes.drop_last().len() implies (
        #[trigger] nodes.drop_last()[i]).settled() by {
            assert(nodes.drop_last()[i] == nodes[i]);
        }
        lemma_sizes_are_sums_of_files(nodes.drop_last());
        assert(nodes.last() == nodes[nodes.len() - 1]);
        lemma_size_is_sum_of_files(nodes.last());
        lemma_file_bytes_add(forest_of(nodes.drop_last()), nodes.last().preorder());
    }
}

/// A scanned node is settled.
pub proof fn lemma_scan_is_settled(disk: Disk, path: Seq<char>)
    requires
        sound(disk),
    ensures
        scan(disk, path) matches Ok(node) ==> node.settled(),
    decreases room(disk, path), 1nat,
{
    if let Ok(node) = scan(disk, path) {
        if let Ok((true, st)) = stat_of(disk, path) {
            lemma_scans_are_settled(disk, path, listing_of(disk, path)->Ok_0);
        }
    }
}

/// The scanned entries of a directory are settled.
pub proof fn lemma_scans_are_settled(disk: Disk, dir: Seq<char>, entries: Seq<Seq<char>>)
    requires
        sound(disk),
        listing_of(disk, dir) == Ok::<Seq<Seq<char>>, FsError>(entries),
    ensures
        scan_entries(disk, dir, entries) matches Ok(children) ==> forall|i: int|
            0 <= i < children.len() ==> (#[trigger] children[i]).settled(),
    decreases room(disk, dir), 0nat,
{
    if let Ok(children) = scan_entries(disk, dir, entries) {
        let steps = scans(disk, dir, entries);
        lemma_scans(disk, dir, entries);
        lemma_all_succeeded(steps);
        lemma_depth_bound(disk);
        assert(entries_below(dir, disk[dir]));
        assert(disk[dir] matches ProbeView::Directory(_, Ok(l)) && l == entries);
        assert forall|i: int| 0 <= i < children.len() implies (#[trigger] children[i]).settled() by {
            assert(steps[i] == scan(disk, entries[i]));
            lemma_scan_is_settled(disk, entries[i]);
        }
    }
}

/// A node whose size was brought up to date is settled, provided no file
/// in it had children.
pub proof fn lemma_resized_is_settled(node: NodeView, disk: Disk)
    requires
        sound(disk),
        node.files_are_leaves(),
    ensures
        resized(node, disk) matches Ok(current) ==> current.settled(),
    decreases node,
{
    if let Ok(current) = resized(node, disk) {
        if node.node_type == NodeType::Directory {
            match node.children {
                None => {
                    lemma_scans_are_settled(disk, node.path, listing_of(disk, node.path)->Ok_0);
                },
                Some(children) => {
                    let steps = resized_each(children, disk);
                    lemma_all_succeeded(steps);
                    let now = all_or_first_failure(steps)->Ok_0;
                    assert forall|i: int| 0 <= i < now.len() implies (#[trigger] now[i]).settled() by {
                        assert(steps[i] == resized(children[i], disk));
                        assert(children[i].files_are_leaves());
                        lemma_resized_is_settled(children[i], disk);
                    }
                },
            }
        }
    }
}

/// After its size was brought up to date, the size of a node is the sum of
/// the byte lengths of all files at and below it.
pub proof fn lemma_update_size_adds_up_files(node: NodeView, disk: Disk)
    requires
        sound(disk),
        node.files_are_leaves(),
    ensures
        resized(node, disk) matches Ok(current) ==> current.size == file_bytes(
            current.preorder(),
        ),
{
    if let Ok(current) = resized(node, disk) {
        lemma_resized_is_settled(node, disk);
        lemma_size_is_sum_of_files(current);
    }
}

} // verus!
