//! The tree, its walk, and the search in it.

use crate::error::FsError;
use crate::node::{lemma_view, scan_children, sum_sizes, Node, NodeType, NodeView};
use crate::path::{join, joined};
use crate::scan::{lemma_scans_are_current, refreshed, scan};
use crate::snapshot::{listing_of, sound, FsSnapshot};
use vstd::prelude::*;
use vstd::string::StringExecFns;

verus! {

impl Node {
    /// This node and every node below it, each before its children and the
    /// children in the order in which they are held.
    pub open spec fn preorder(self) -> Seq<Node>
        decreases self,
    {
        seq![self] + match self.children {
            Some(v) => forest(v@),
            None => Seq::empty(),
        }
    }
}

/// The nodes of several trees, one tree after the other.
pub open spec fn forest(roots: Seq<Node>) -> Seq<Node>
    decreases roots,
{
    if roots.len() == 0 {
        Seq::empty()
    } else {
        forest(roots.drop_last()) + roots.last().preorder()
    }
}

/// What a stack of trees still has to yield, the top of the stack first.
pub open spec fn unwound(stack: Seq<Node>) -> Seq<Node>
    decreases stack.len(),
{
    if stack.len() == 0 {
        Seq::empty()
    } else {
        stack.last().preorder() + unwound(stack.drop_last())
    }
}

/// The nodes that a sequence of references points to.
pub open spec fn targets(refs: Seq<&Node>) -> Seq<Node> {
    Seq::new(refs.len(), |i: int| *refs[i])
}

/// A forest starts with its first tree.
pub proof fn lemma_forest_first(roots: Seq<Node>)
    requires
        roots.len() > 0,
    ensures
        forest(roots) == roots.first().preorder() + forest(roots.drop_first()),
    decreases roots.len(),
{
    if roots.len() == 1 {
        assert(roots.drop_last() =~= Seq::empty());
        assert(roots.drop_first() =~= Seq::empty());
        assert(forest(roots) =~= roots.first().preorder() + forest(roots.drop_first()));
    } else {
        lemma_forest_first(roots.drop_last());
        assert(roots.drop_last().drop_first() =~= roots.drop_first().drop_last());
        assert(roots.drop_last().first() == roots.first());
        assert(roots.drop_first().last() == roots.last());
        assert(forest(roots) =~= roots.first().preorder() + forest(roots.drop_first()));
    }
}

/// The first index at which `nodes` holds a node with the path `path`; the
/// length of `nodes` where there is none.
pub open spec fn first_with_path(nodes: Seq<Node>, path: Seq<char>) -> int
    decreases nodes.len(),
{
    if nodes.len() == 0 {
        0
    } else if nodes.first().path@ == path {
        0
    } else {
        1 + first_with_path(nodes.drop_first(), path)
    }
}

/// Whether `verdicts` holds, for each of `nodes`, an answer that
/// `predicate` can give of it.
pub open spec fn judged<F: Fn(&Node) -> bool>(
    predicate: F,
    nodes: Seq<Node>,
    verdicts: Seq<bool>,
) -> bool {
    &&& verdicts.len() == nodes.len()
    &&& forall|i: int|
        0 <= i < nodes.len() ==> call_ensures(predicate, (&#[trigger] nodes[i],), verdicts[i])
}

/// The nodes whose verdict is `true`, in their order.
pub open spec fn chosen(nodes: Seq<Node>, verdicts: Seq<bool>) -> Seq<Node>
    decreases nodes.len(),
{
    if nodes.len() == 0 {
        Seq::empty()
    } else if verdicts.last() {
        chosen(nodes.drop_last(), verdicts.drop_last()).push(nodes.last())
    } else {
        chosen(nodes.drop_last(), verdicts.drop_last())
    }
}

/// Where `accepts` says of every node what the verdicts say, the chosen
/// nodes are those that `accepts` holds of.
pub proof fn lemma_chosen_is_filter(
    nodes: Seq<Node>,
    verdicts: Seq<bool>,
    accepts: spec_fn(Node) -> bool,
)
    requires
        verdicts.len() == nodes.len(),
        forall|i: int| 0 <= i < nodes.len() ==> verdicts[i] == accepts(#[trigger] nodes[i]),
    ensures
        chosen(nodes, verdicts) == nodes.filter(accepts),
    decreases nodes.len(),
{
    reveal(Seq::filter);
    if nodes.len() > 0 {
        lemma_chosen_is_filter(nodes.drop_last(), verdicts.drop_last(), accepts);
    }
}

/// An in-memory mirror of a directory subtree.
pub struct Tree {
    /// The root node of the tree.
    pub head: Node,
}

/// A depth-first walk over the nodes of a tree.
pub struct TreeIterator<'a> {
    stack: Vec<&'a Node>,
}

impl<'a> TreeIterator<'a> {
    /// The nodes that the walk has still to yield, in order.
    pub closed spec fn remaining(&self) -> Seq<Node> {
        unwound(targets(self.stack@))
    }

    /// Yields the next node of the walk, or `None` when every node was
    /// yielded.
    pub fn next(&mut self) -> (r: Option<&'a Node>)
        ensures
            match r {
                Some(node) => old(self).remaining().len() > 0 && *node == old(
                    self,
                ).remaining().first() && final(self).remaining() == old(
                    self,
                ).remaining().drop_first(),
                None => old(self).remaining().len() == 0 && final(self).remaining().len() == 0,
            },
    {
        let ghost before = targets(self.stack@);
        match self.stack.pop() {
            None => None,
            Some(current) => {
                let ghost rest = targets(self.stack@);
                assert(rest =~= before.drop_last());
                assert(before.last() == *current);
                match &current.children {
                    None => {
                        assert(self.remaining() =~= old(self).remaining().drop_first());
                    },
                    Some(children) => {
                        let mut j: usize = children.len();
                        assert(children@.subrange(j as int, children@.len() as int)
                            =~= Seq::empty());
                        while j > 0
                            invariant
                                j <= children.len(),
                                unwound(targets(self.stack@)) == forest(
                                    children@.subrange(j as int, children@.len() as int),
                                ) + unwound(rest),
                            decreases j,
                        {
                            j -= 1;
                            let ghost below = targets(self.stack@);
                            self.stack.push(&children[j]);
                            proof {
                                let above = targets(self.stack@);
                                assert(above.drop_last() =~= below);
                                assert(above.last() == children@[j as int]);
                                let tail = children@.subrange(j as int, children@.len() as int);
                                lemma_forest_first(tail);
                                assert(tail.drop_first() =~= children@.subrange(
                                    j + 1,
                                    children@.len() as int,
                                ));
                                assert(unwound(above) =~= forest(tail) + unwound(rest));
                            }
                        }
                        assert(children@.subrange(0, children@.len() as int) =~= children@);
                        assert(self.remaining() =~= old(self).remaining().drop_first());
                    },
                }
                Some(current)
            },
        }
    }
}

impl Tree {
    /// Builds the mirror of everything that `snap` holds at and below `root`.
    pub fn new(root: &str, snap: &FsSnapshot) -> (r: Result<Tree, FsError>)
        ensures
            sound(snap@),
            match r {
                Ok(tree) => scan(snap@, root@) == Ok::<NodeView, FsError>(tree.head@),
                Err(e) => scan(snap@, root@) == Err::<NodeView, FsError>(e),
            },
    {
        match Node::new(String::from_str(root), snap) {
            Ok(head) => Ok(Tree { head }),
            Err(e) => Err(e),
        }
    }

    /// The nodes of the tree in the order of the walk: the root first, every
    /// node before its children.
    pub open spec fn nodes(&self) -> Seq<Node> {
        self.head.preorder()
    }

    /// Starts a walk over all nodes of the tree.
    pub fn iter(&self) -> (it: TreeIterator<'_>)
        ensures
            it.remaining() == self.nodes(),
    {
        let mut stack: Vec<&Node> = Vec::new();
        stack.push(&self.head);
        proof {
            assert(targets(stack@).drop_last() =~= Seq::empty());
            assert(unwound(targets(stack@).drop_last()) =~= Seq::empty());
            assert(targets(stack@).last() == self.head);
            assert(unwound(targets(stack@)) =~= self.head.preorder());
        }
        TreeIterator { stack }
    }

    /// Reads the whole tree anew from `snap`: the children of the root are
    /// scanned again and the sizes are added up again. The root keeps its
    /// path, type and metadata. On a failure the tree stays as it was.
    pub fn refresh(&mut self, snap: &FsSnapshot) -> (r: Result<(), FsError>)
        ensures
            sound(snap@),
            match r {
                Ok(_) => refreshed(old(self).head@, snap@) == Ok::<NodeView, FsError>(
                    final(self).head@,
                ),
                Err(e) => refreshed(old(self).head@, snap@) == Err::<NodeView, FsError>(e)
                    && *final(self) == *old(self),
            },
    {
        proof {
            lemma_view(self.head);
        }
        match self.head.node_type {
            NodeType::File => match self.head.update_size(snap) {
                Ok(_) => Ok(()),
                Err(e) => Err(e),
            },
            NodeType::Directory => match scan_children(&self.head.path, snap) {
                Err(e) => Err(e),
                Ok(children) => {
                    proof {
                        lemma_scans_are_current(
                            snap@,
                            self.head.path@,
                            listing_of(snap@, self.head.path@)->Ok_0,
                        );
                    }
                    match sum_sizes(&children) {
                        None => Err(FsError::TooLarge),
                        Some(size) => {
                            self.head.children = Some(children);
                            self.head.size = size;
                            proof {
                                lemma_view(self.head);
                            }
                            Ok(())
                        },
                    }
                },
            },
        }
    }

    /// The nodes that `predicate` accepts, in the order of the walk.
    pub fn search<F: Fn(&Node) -> bool>(&self, predicate: F) -> (found: Vec<&Node>)
        requires
            forall|i: int|
                0 <= i < self.nodes().len() ==> call_requires(
                    predicate,
                    (&#[trigger] self.nodes()[i],),
                ),
        ensures
            exists|verdicts: Seq<bool>| #[trigger]
                judged(predicate, self.nodes(), verdicts) && targets(found@) == chosen(
                    self.nodes(),
                    verdicts,
                ),
    {
        let ghost all = self.nodes();
        let ghost mut verdicts = Seq::<bool>::empty();
        let ghost mut n: int = 0;
        let mut found: Vec<&Node> = Vec::new();
        let mut it = self.iter();
        proof {
            assert(all.skip(0) =~= all);
            assert(targets(found@) =~= Seq::empty());
        }
        loop
            invariant
                0 <= n <= all.len(),
                all == self.nodes(),
                it.remaining() == all.skip(n),
                verdicts.len() == n,
                forall|i: int| 0 <= i < n ==> call_ensures(predicate, (&all[i],), verdicts[i]),
                forall|i: int| 0 <= i < all.len() ==> call_requires(predicate, (&all[i],)),
                targets(found@) == chosen(all.take(n), verdicts),
            ensures
                n == all.len(),
            decreases it.remaining().len(),
        {
            match it.next() {
                None => {
                    break ;
                },
                Some(node) => {
                    assert(*node == all[n]);
                    assert(all.skip(n).drop_first() =~= all.skip(n + 1));
                    let keep = predicate(node);
                    let ghost before = targets(found@);
                    if keep {
                        found.push(node);
                        assert(targets(found@) =~= before.push(*node));
                    }
                    proof {
                        assert(all.take(n + 1).drop_last() =~= all.take(n));
                        assert(verdicts.push(keep).drop_last() =~= verdicts);
                        verdicts = verdicts.push(keep);
                        n = n + 1;
                    }
                },
            }
        }
        proof {
            assert(all.take(n) =~= all);
            assert(judged(predicate, self.nodes(), verdicts));
        }
        found
    }

    /// The first node of the walk whose path is `path`, if there is one.
    pub fn get_node(&self, path: &str) -> (r: Option<&Node>)
        ensures
            match r {
                Some(node) => first_with_path(self.nodes(), path@) < self.nodes().len()
                    && *node == self.nodes()[first_with_path(self.nodes(), path@)],
                None => first_with_path(self.nodes(), path@) == self.nodes().len(),
            },
    {
        let ghost all = self.nodes();
        let ghost mut n: int = 0;
        let wanted = String::from_str(path);
        let mut it = self.iter();
        proof {
            assert(all.skip(0) =~= all);
        }
        loop
            invariant
                0 <= n <= all.len(),
                all == self.nodes(),
                wanted@ == path@,
                it.remaining() == all.skip(n),
                first_with_path(all, path@) == n + first_with_path(all.skip(n), path@),
            ensures
                n == all.len(),
                first_with_path(all, path@) == all.len(),
            decreases it.remaining().len(),
        {
            match it.next() {
                None => {
                    break ;
                },
                Some(node) => {
                    assert(*node == all[n]);
                    assert(all.skip(n).drop_first() =~= all.skip(n + 1));
                    if node.path == wanted {
                        return Some(node);
                    }
                    proof {
                        n = n + 1;
                    }
                },
            }
        }
        None
    }

    /// The path that `rel_path` names when it is taken from the root of the
    /// tree.
    pub fn target(&self, rel_path: &str) -> (path: String)
        ensures
            path@ == joined(self.head.path@, rel_path@),
    {
        join(self.head.path.as_str(), rel_path)
    }

    /// Takes a directory that was made on disk into the tree. `rel_path` is
    /// its path from the root of the tree and `snap` a snapshot taken after
    /// it was made. The tree is refreshed from `snap`, and the node that now
    /// stands for the directory is returned as a copy. Where the refreshed
    /// tree holds no node of that path the result is `NotFound`.
    pub fn create_dir(&mut self, rel_path: &str, snap: &FsSnapshot) -> (r: Result<Node, FsError>)
        ensures
            sound(snap@),
            match refreshed(old(self).head@, snap@) {
                Err(e) => r == Err::<Node, FsError>(e) && *final(self) == *old(self),
                Ok(head) => {
                    let nodes = final(self).nodes();
                    let at = first_with_path(nodes, joined(old(self).head.path@, rel_path@));
                    &&& final(self).head@ == head
                    &&& match r {
                        Ok(node) => at < nodes.len() && node@ == nodes[at]@,
                        Err(e) => at == nodes.len() && e == FsError::NotFound,
                    }
                },
            },
    {
        let new_path = self.target(rel_path);
        match self.refresh(snap) {
            Err(e) => Err(e),
            Ok(_) => match self.get_node(new_path.as_str()) {
                Some(node) => Ok(node.clone()),
                None => Err(FsError::NotFound),
            },
        }
    }
}

} // verus!
