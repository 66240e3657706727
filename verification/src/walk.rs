//! What holds of a walk and of the nodes it yields.

use crate::error::FsError;
use crate::invariants::forest_of;
use crate::node::{lemma_view, total_size, views, Node, NodeType, NodeView};
use crate::scan::{
    lemma_all_succeeded, lemma_scans, lemma_scans_are_current, refreshed, resized,
    resized_each, scan, scan_entries, scans,
};
use crate::snapshot::{listing_of, sound, stat_of, Disk};
use crate::tree::forest;
use vstd::prelude::*;

verus! {

impl Node {
    /// The number of nodes at and below this one.
    pub open spec fn count(self) -> nat
        decreases self,
    {
        1 + match self.children {
            Some(v) => count_all(v@),
            None => 0,
        }
    }

    /// The node at the position `pos`. A position names a node by the way
    /// to it from here: the index of the child to go to, then the index
    /// among its children, and so on. There is no node at a position that
    /// leaves the tree.
    pub open spec fn at(self, pos: Seq<int>) -> Option<Node>
        decreases pos.len(),
    {
        if pos.len() == 0 {
            Some(self)
        } else {
            match self.children {
                Some(v) => if 0 <= pos[0] < v@.len() {
                    v@[pos[0]].at(pos.drop_first())
                } else {
                    None
                },
                None => None,
            }
        }
    }

    /// The place in the walk at which the node at the position `pos` is
    /// yielded, counted from zero.
    pub open spec fn rank(self, pos: Seq<int>) -> int
        decreases pos.len(),
    {
        if pos.len() == 0 {
            0
        } else {
            let v = self.children->0@;
            1 + forest(v.take(pos[0])).len() + v[pos[0]].rank(pos.drop_first())
        }
    }
}

/// The number of nodes of several trees.
pub open spec fn count_all(roots: Seq<Node>) -> nat
    decreases roots,
{
    if roots.len() == 0 {
        0
    } else {
        count_all(roots.drop_last()) + roots.last().count()
    }
}

/// A walk yields as many nodes as the tree has.
pub proof fn lemma_walk_length(node: Node)
    ensures
        node.preorder().len() == node.count(),
    decreases node, 1nat,
{
    if let Some(v) = node.children {
        lemma_forest_length(v@);
    }
}

/// The walk over several trees yields as many nodes as they have.
pub proof fn lemma_forest_length(roots: Seq<Node>)
    ensures
        forest(roots).len() == count_all(roots),
    decreases roots, 0nat,
{
    if roots.len() > 0 {
        lemma_forest_length(roots.drop_last());
        lemma_walk_length(roots.last());
    }
}

/// The walk over the first `n` trees is the start of the walk over all.
pub proof fn lemma_forest_prefix(roots: Seq<Node>, n: int)
    requires
        0 <= n < roots.len(),
    ensures
        forest(roots.take(n + 1)) == forest(roots.take(n)) + roots[n].preorder(),
        forest(roots.take(n + 1)).len() <= forest(roots).len(),
    decreases roots.len() - n,
{
    assert(roots.take(n + 1).drop_last() =~= roots.take(n));
    assert(roots.take(n + 1).last() == roots[n]);
    if n + 1 == roots.len() {
        assert(roots.take(n + 1) =~= roots);
    } else {
        lemma_forest_prefix(roots, n + 1);
    }
}

/// The walk over the first `n` trees is no longer than the walk over the
/// first `m`, where `n` is at most `m`.
pub proof fn lemma_forest_prefix_grows(roots: Seq<Node>, n: int, m: int)
    requires
        0 <= n <= m <= roots.len(),
    ensures
        forest(roots.take(n)).len() <= forest(roots.take(m)).len(),
    decreases m - n,
{
    if n < m {
        lemma_forest_prefix(roots, n);
        lemma_forest_prefix_grows(roots, n + 1, m);
    }
}

/// The walk over several trees holds the walk of each at its place: the
/// node yielded at `j` in the walk of the tree `k` is yielded after all
/// nodes of the trees before it.
pub proof fn lemma_forest_holds(roots: Seq<Node>, k: int, j: int)
    requires
        0 <= k < roots.len(),
        0 <= j < roots[k].preorder().len(),
    ensures
        forest(roots.take(k)).len() + j < forest(roots).len(),
        forest(roots)[forest(roots.take(k)).len() + j] == roots[k].preorder()[j],
    decreases roots.len(),
{
    if k == roots.len() - 1 {
        assert(roots.take(k) =~= roots.drop_last());
    } else {
        lemma_forest_holds(roots.drop_last(), k, j);
        assert(roots.drop_last().take(k) =~= roots.take(k));
    }
}

/// Every place in the walk over several trees lies in the walk of one of
/// them: the result names the tree and the place in its walk.
pub proof fn lemma_forest_locate(roots: Seq<Node>, i: int) -> (found: (int, int))
    requires
        0 <= i < forest(roots).len(),
    ensures
        0 <= found.0 < roots.len(),
        0 <= found.1 < roots[found.0].preorder().len(),
        i == forest(roots.take(found.0)).len() + found.1,
        forest(roots)[i] == roots[found.0].preorder()[found.1],
    decreases roots.len(),
{
    let before = forest(roots.drop_last());
    if i < before.len() {
        let found = lemma_forest_locate(roots.drop_last(), i);
        assert(roots.drop_last().take(found.0) =~= roots.take(found.0));
        found
    } else {
        assert(roots.take(roots.len() - 1) =~= roots.drop_last());
        (roots.len() - 1, i - before.len())
    }
}

/// The walk yields the node of every position, at the place that `rank`
/// gives.
pub proof fn lemma_walk_visits(node: Node, pos: Seq<int>)
    requires
        node.at(pos) is Some,
    ensures
        0 <= node.rank(pos) < node.preorder().len(),
        node.preorder()[node.rank(pos)] == node.at(pos)->0,
    decreases pos.len(),
{
    if pos.len() > 0 {
        let v = node.children->0@;
        let k = pos[0];
        lemma_walk_visits(v[k], pos.drop_first());
        lemma_forest_holds(v, k, v[k].rank(pos.drop_first()));
    }
}

/// The walk yields no node twice: two positions have two places.
pub proof fn lemma_walk_visits_once(node: Node, p: Seq<int>, q: Seq<int>)
    requires
        node.at(p) is Some,
        node.at(q) is Some,
        p != q,
    ensures
        node.rank(p) != node.rank(q),
    decreases p.len(),
{
    if p.len() == 0 && q.len() == 0 {
        assert(p =~= q);
    } else if p.len() == 0 {
        lemma_walk_visits(node.children->0@[q[0]], q.drop_first());
    } else if q.len() == 0 {
        lemma_walk_visits(node.children->0@[p[0]], p.drop_first());
    } else {
        let v = node.children->0@;
        let a = p[0];
        let b = q[0];
        lemma_walk_visits(v[a], p.drop_first());
        lemma_walk_visits(v[b], q.drop_first());
        if a == b {
            if p.drop_first() == q.drop_first() {
                assert(p =~= seq![a] + p.drop_first());
                assert(q =~= seq![b] + q.drop_first());
            }
            lemma_walk_visits_once(v[a], p.drop_first(), q.drop_first());
        } else if a < b {
            lemma_forest_prefix(v, a);
            lemma_forest_prefix_grows(v, a + 1, b);
        } else {
            lemma_forest_prefix(v, b);
            lemma_forest_prefix_grows(v, b + 1, a);
        }
    }
}

/// The walk yields nothing but the nodes of the tree: every place in it is
/// the place of a position. The result is that position.
pub proof fn lemma_walk_visits_only_nodes(node: Node, i: int) -> (pos: Seq<int>)
    requires
        0 <= i < node.preorder().len(),
    ensures
        node.at(pos) is Some,
        node.rank(pos) == i,
    decreases node,
{
    if i == 0 {
        Seq::empty()
    } else {
        let v = node.children->0@;
        let found = lemma_forest_locate(v, i - 1);
        let below = lemma_walk_visits_only_nodes(v[found.0], found.1);
        let pos = seq![found.0] + below;
        assert(pos.drop_first() =~= below);
        assert(pos[0] == found.0);
        pos
    }
}

/// The values of the walk over a tree are the walk over its value.
pub proof fn lemma_walk_of_value(node: Node)
    ensures
        views(node.preorder()) == node@.preorder(),
    decreases node, 1nat,
{
    lemma_view(node);
    match node.children {
        None => {
            assert(views(node.preorder()) =~= node@.preorder());
        },
        Some(v) => {
            lemma_forest_of_values(v@);
            assert(views(node.preorder()) =~= seq![node@] + views(forest(v@)));
            assert(views(node.preorder()) =~= node@.preorder());
        },
    }
}

/// The values of the walk over several trees are the walk over their
/// values.
pub proof fn lemma_forest_of_values(roots: Seq<Node>)
    ensures
        views(forest(roots)) == forest_of(views(roots)),
    decreases roots, 0nat,
{
    if roots.len() == 0 {
        assert(views(forest(roots)) =~= forest_of(views(roots)));
    } else {
        lemma_forest_of_values(roots.drop_last());
        lemma_walk_of_value(roots.last());
        assert(views(roots).drop_last() =~= views(roots.drop_last()));
        assert(views(roots).last() == roots.last()@);
        assert(views(forest(roots)) =~= views(forest(roots.drop_last())) + views(
            roots.last().preorder(),
        ));
    }
}

/// Every node of a scanned tree is the scan of its own path.
pub proof fn lemma_scanned_nodes_mirror(node: Node, disk: Disk, path: Seq<char>, i: int)
    requires
        sound(disk),
        scan(disk, path) == Ok::<NodeView, FsError>(node@),
        0 <= i < node.preorder().len(),
    ensures
        scan(disk, node.preorder()[i].path@) == Ok::<NodeView, FsError>(node.preorder()[i]@),
    decreases node,
{
    lemma_view(node);
    if i > 0 {
        let v = node.children->0@;
        let entries = listing_of(disk, path)->Ok_0;
        lemma_scanned_children_mirror(v, disk, path, entries, i - 1);
    }
}

/// Every node below the scanned entries of a directory is the scan of its
/// own path.
pub proof fn lemma_scanned_children_mirror(
    children: Seq<Node>,
    disk: Disk,
    dir: Seq<char>,
    entries: Seq<Seq<char>>,
    i: int,
)
    requires
        sound(disk),
        listing_of(disk, dir) == Ok::<Seq<Seq<char>>, FsError>(entries),
        scan_entries(disk, dir, entries) == Ok::<Seq<NodeView>, FsError>(views(children)),
        0 <= i < forest(children).len(),
    ensures
        scan(disk, forest(children)[i].path@) == Ok::<NodeView, FsError>(forest(children)[i]@),
    decreases children,
{
    let found = lemma_forest_locate(children, i);
    lemma_scans(disk, dir, entries);
    lemma_all_succeeded(scans(disk, dir, entries));
    assert(scans(disk, dir, entries)[found.0] == scan(disk, entries[found.0]));
    assert(views(children)[found.0] == children[found.0]@);
    lemma_scanned_nodes_mirror(children[found.0], disk, entries[found.0], found.1);
}

/// After the size of a node was brought up to date, every file at and
/// below it has the byte length that the snapshot holds for its path.
pub proof fn lemma_files_hold_their_length(before: NodeView, after: Node, disk: Disk, i: int)
    requires
        sound(disk),
        before.files_are_leaves(),
        resized(before, disk) == Ok::<NodeView, FsError>(after@),
        0 <= i < after.preorder().len(),
        after.preorder()[i].is_file(),
    ensures
        stat_of(disk, after.preorder()[i].path@) matches Ok((_, st)) && after.preorder()[i].size
            == st.size,
    decreases after,
{
    lemma_view(after);
    if i > 0 {
        let v = after.children->0@;
        let found = lemma_forest_locate(v, i - 1);
        let child = v[found.0];
        assert(views(v)[found.0] == child@);
        match before.children {
            None => {
                let entries = listing_of(disk, before.path)->Ok_0;
                lemma_scans(disk, before.path, entries);
                lemma_all_succeeded(scans(disk, before.path, entries));
                assert(scans(disk, before.path, entries)[found.0] == scan(disk, entries[found.0]));
                lemma_scanned_nodes_mirror(child, disk, entries[found.0], found.1);
                lemma_view(child.preorder()[found.1]);
            },
            Some(children) => {
                let steps = resized_each(children, disk);
                lemma_all_succeeded(steps);
                assert(steps[found.0] == resized(children[found.0], disk));
                assert(children[found.0].files_are_leaves());
                lemma_files_hold_their_length(children[found.0], child, disk, found.1);
            },
        }
    }
}

/// Every node below the root of a refreshed tree is the scan of its own
/// path: it shows what the snapshot holds there.
pub proof fn lemma_refreshed_nodes_mirror(before: NodeView, head: Node, disk: Disk, i: int)
    requires
        sound(disk),
        before.files_are_leaves(),
        refreshed(before, disk) == Ok::<NodeView, FsError>(head@),
        1 <= i < head.preorder().len(),
    ensures
        scan(disk, head.preorder()[i].path@) == Ok::<NodeView, FsError>(head.preorder()[i]@),
{
    lemma_view(head);
    if before.node_type == NodeType::Directory {
        let v = head.children->0@;
        let entries = listing_of(disk, before.path)->Ok_0;
        lemma_scans_are_current(disk, before.path, entries);
        lemma_scanned_children_mirror(v, disk, before.path, entries, i - 1);
    }
}

/// A directory that the snapshot shows as empty stands in a refreshed tree
/// as a directory with children that are listed and none.
pub proof fn lemma_empty_directory_in_tree(before: NodeView, head: Node, disk: Disk, i: int)
    requires
        sound(disk),
        before.files_are_leaves(),
        refreshed(before, disk) == Ok::<NodeView, FsError>(head@),
        1 <= i < head.preorder().len(),
        stat_of(disk, head.preorder()[i].path@) matches Ok((is_dir, _)) && is_dir,
        listing_of(disk, head.preorder()[i].path@) == Ok::<Seq<Seq<char>>, FsError>(Seq::empty()),
    ensures
        head.preorder()[i].is_dir(),
        head.preorder()[i]@.children == Some(Seq::<NodeView>::empty()),
        head.preorder()[i]@.size == 0,
{
    lemma_refreshed_nodes_mirror(before, head, disk, i);
    let node = head.preorder()[i];
    lemma_view(node);
    lemma_scans(disk, node.path@, Seq::empty());
    assert(scans(disk, node.path@, Seq::empty()) =~= Seq::empty());
    assert(total_size(Seq::<NodeView>::empty()) == 0);
}

} // verus!
