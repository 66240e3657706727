//! What building and refreshing a node means, stated over snapshots.

use crate::error::FsError;
use crate::node::{total_size, ExtendedMetadata, NodeType, NodeView};
use crate::snapshot::{
    entries_below, lemma_depth_bound, listing_of, room, sound, stat_of, Disk, ProbeView,
};
use vstd::prelude::*;

verus! {

/// The values of a run of fallible steps taken in order: all of them, or the
/// failure of the first step that failed.
pub open spec fn all_or_first_failure<A>(steps: Seq<Result<A, FsError>>) -> Result<Seq<A>, FsError>
    decreases steps.len(),
{
    if steps.len() == 0 {
        Ok(Seq::empty())
    } else {
        match all_or_first_failure(steps.drop_last()) {
            Err(e) => Err(e),
            Ok(done) => match steps.last() {
                Err(e) => Err(e),
                Ok(a) => Ok(done.push(a)),
            },
        }
    }
}

/// A directory node over children that are already complete. Its size is
/// the sum of theirs; where that sum does not fit into a `u64` there is no
/// such node.
pub open spec fn directory(
    path: Seq<char>,
    metadata: ExtendedMetadata,
    children: Seq<NodeView>,
) -> Result<NodeView, FsError> {
    if total_size(children) > u64::MAX {
        Err(FsError::TooLarge)
    } else {
        Ok(
            NodeView {
                path,
                node_type: NodeType::Directory,
                metadata,
                children: Some(children),
                size: total_size(children),
            },
        )
    }
}

/// The node that stands for `path` in the snapshot `disk`, with everything
/// below it: a file carries its byte length, a directory its listed entries,
/// each scanned in turn, and the sum of their sizes. The first failure met on
/// the way, in the order of the walk, is the result.
pub open spec fn scan(disk: Disk, path: Seq<char>) -> Result<NodeView, FsError>
    decreases room(disk, path), 1nat,
    when sound(disk)
{
    match stat_of(disk, path) {
        Err(e) => Err(e),
        Ok((false, st)) => Ok(
            NodeView {
                path,
                node_type: NodeType::File,
                metadata: st.metadata,
                children: None,
                size: st.size as nat,
            },
        ),
        Ok((true, st)) => match listing_of(disk, path) {
            Err(e) => Err(e),
            Ok(entries) => match all_or_first_failure(scans(disk, path, entries)) {
                Err(e) => Err(e),
                Ok(children) => directory(path, st.metadata, children),
            },
        },
    }
}

/// The scan of each entry listed for the directory `dir`, in order.
pub open spec fn scans(disk: Disk, dir: Seq<char>, entries: Seq<Seq<char>>) -> Seq<
    Result<NodeView, FsError>,
>
    decreases room(disk, dir), 0nat,
    when sound(disk) && listing_of(disk, dir) == Ok::<Seq<Seq<char>>, FsError>(entries)
{
    Seq::new(
        entries.len(),
        |i: int|
            if 0 <= i < entries.len() {
                proof {
                    lemma_depth_bound(disk);
                    assert(entries_below(dir, disk[dir]));
                    assert(disk[dir] matches ProbeView::Directory(_, Ok(l)) && l == entries);
                }
                scan(disk, entries[i])
            } else {
                Err(FsError::NotFound)
            },
    )
}

/// The children of the directory `dir`: the scans of its listed entries,
/// or the first failure among them.
pub open spec fn scan_entries(disk: Disk, dir: Seq<char>, entries: Seq<Seq<char>>) -> Result<
    Seq<NodeView>,
    FsError,
> {
    all_or_first_failure(scans(disk, dir, entries))
}

/// `scans` holds one scan for each entry.
pub proof fn lemma_scans(disk: Disk, dir: Seq<char>, entries: Seq<Seq<char>>)
    requires
        sound(disk),
        listing_of(disk, dir) == Ok::<Seq<Seq<char>>, FsError>(entries),
    ensures
        scans(disk, dir, entries).len() == entries.len(),
        forall|i: int|
            0 <= i < entries.len() ==> #[trigger] scans(disk, dir, entries)[i] == scan(
                disk,
                entries[i],
            ),
{
}

/// The node after its children were read anew: a file stays as it is, a
/// directory gets the scans of its listed entries in place of whatever
/// children it had. Its own size is left as it was.
pub open spec fn populated(node: NodeView, disk: Disk) -> Result<NodeView, FsError> {
    if node.node_type == NodeType::File {
        Ok(node)
    } else {
        match listing_of(disk, node.path) {
            Err(e) => Err(e),
            Ok(entries) => match scan_entries(disk, node.path, entries) {
                Err(e) => Err(e),
                Ok(children) => Ok(NodeView { children: Some(children), ..node }),
            },
        }
    }
}

/// The node after its size was brought up to date. A file gets the byte
/// length that `disk` holds for its path. A directory that was not listed
/// yet is listed first; one that was keeps its children, each brought up to
/// date in turn. Either way its size becomes the sum of theirs.
pub open spec fn resized(node: NodeView, disk: Disk) -> Result<NodeView, FsError>
    decreases node,
{
    if node.node_type == NodeType::File {
        match stat_of(disk, node.path) {
            Err(e) => Err(e),
            Ok((_, st)) => Ok(NodeView { size: st.size as nat, ..node }),
        }
    } else {
        match node.children {
            None => match listing_of(disk, node.path) {
                Err(e) => Err(e),
                Ok(entries) => match scan_entries(disk, node.path, entries) {
                    Err(e) => Err(e),
                    Ok(children) => directory(node.path, node.metadata, children),
                },
            },
            Some(children) => match all_or_first_failure(resized_each(children, disk)) {
                Err(e) => Err(e),
                Ok(current) => directory(node.path, node.metadata, current),
            },
        }
    }
}

/// Each of `nodes` with its size brought up to date.
pub open spec fn resized_each(nodes: Seq<NodeView>, disk: Disk) -> Seq<Result<NodeView, FsError>>
    decreases nodes,
{
    Seq::new(
        nodes.len(),
        |i: int|
            if 0 <= i < nodes.len() {
                resized(nodes[i], disk)
            } else {
                Err(FsError::NotFound)
            },
    )
}

/// Taking one more step extends the values gathered so far, or fails with
/// the failure of that step.
pub proof fn lemma_one_more_step<A>(steps: Seq<Result<A, FsError>>, n: int)
    requires
        0 <= n < steps.len(),
    ensures
        all_or_first_failure(steps.take(n + 1)) == match all_or_first_failure(steps.take(n)) {
            Err(e) => Err(e),
            Ok(done) => match steps[n] {
                Err(e) => Err(e),
                Ok(a) => Ok(done.push(a)),
            },
        },
{
    assert(steps.take(n + 1).drop_last() =~= steps.take(n));
}

/// Once a step has failed, the steps after it change nothing.
pub proof fn lemma_failure_stays<A>(steps: Seq<Result<A, FsError>>, n: int, e: FsError)
    requires
        0 <= n <= steps.len(),
        all_or_first_failure(steps.take(n)) == Err::<Seq<A>, FsError>(e),
    ensures
        all_or_first_failure(steps) == Err::<Seq<A>, FsError>(e),
    decreases steps.len() - n,
{
    if n == steps.len() {
        assert(steps.take(n) =~= steps);
    } else {
        lemma_one_more_step(steps, n);
        lemma_failure_stays(steps, n + 1, e);
    }
}

/// Where no step fails there are as many values as steps, each the value
/// of its step.
pub proof fn lemma_all_succeeded<A>(steps: Seq<Result<A, FsError>>)
    ensures
        all_or_first_failure(steps) matches Ok(values) ==> values.len() == steps.len()
            && forall|i: int| 0 <= i < steps.len() ==> steps[i] == Ok::<A, FsError>(values[i]),
    decreases steps.len(),
{
    if steps.len() > 0 {
        lemma_all_succeeded(steps.drop_last());
        if let Ok(values) = all_or_first_failure(steps) {
            let done = all_or_first_failure(steps.drop_last())->Ok_0;
            assert(values == done.push(steps.last()->Ok_0));
            assert forall|i: int| 0 <= i < steps.len() implies steps[i] == Ok::<A, FsError>(
                values[i],
            ) by {
                if i < steps.len() - 1 {
                    assert(steps[i] == steps.drop_last()[i]);
                }
            }
        }
    }
}

/// Steps that all succeed give their values.
pub proof fn lemma_none_failed<A>(steps: Seq<Result<A, FsError>>, values: Seq<A>)
    requires
        values.len() == steps.len(),
        forall|i: int| 0 <= i < steps.len() ==> steps[i] == Ok::<A, FsError>(values[i]),
    ensures
        all_or_first_failure(steps) == Ok::<Seq<A>, FsError>(values),
    decreases steps.len(),
{
    if steps.len() == 0 {
        assert(values =~= Seq::empty());
    } else {
        lemma_none_failed(steps.drop_last(), values.drop_last());
        assert(values.drop_last().push(values.last()) =~= values);
    }
}

/// The tree after a refresh: the children read anew, then the sizes
/// brought up to date.
pub open spec fn refreshed(node: NodeView, disk: Disk) -> Result<NodeView, FsError> {
    match populated(node, disk) {
        Err(e) => Err(e),
        Ok(listed) => resized(listed, disk),
    }
}

/// A node that was scanned from a snapshot is up to date with it: bringing
/// its size up to date against the same snapshot changes nothing.
pub proof fn lemma_scan_is_current(disk: Disk, path: Seq<char>)
    requires
        sound(disk),
    ensures
        scan(disk, path) matches Ok(node) ==> resized(node, disk) == Ok::<NodeView, FsError>(node),
    decreases room(disk, path), 1nat,
{
    if let Ok(node) = scan(disk, path) {
        if let Ok((true, st)) = stat_of(disk, path) {
            let entries = listing_of(disk, path)->Ok_0;
            let children = scan_entries(disk, path, entries)->Ok_0;
            lemma_scans_are_current(disk, path, entries);
        }
    }
}

/// The scanned entries of a directory are up to date with the snapshot they
/// were scanned from.
pub proof fn lemma_scans_are_current(disk: Disk, dir: Seq<char>, entries: Seq<Seq<char>>)
    requires
        sound(disk),
        listing_of(disk, dir) == Ok::<Seq<Seq<char>>, FsError>(entries),
    ensures
        scan_entries(disk, dir, entries) matches Ok(children) ==> all_or_first_failure(
            resized_each(children, disk),
        ) == Ok::<Seq<NodeView>, FsError>(children),
    decreases room(disk, dir), 0nat,
{
    if let Ok(children) = scan_entries(disk, dir, entries) {
        let steps = scans(disk, dir, entries);
        lemma_scans(disk, dir, entries);
        lemma_all_succeeded(steps);
        lemma_depth_bound(disk);
        assert(entries_below(dir, disk[dir]));
        assert(disk[dir] matches ProbeView::Directory(_, Ok(l)) && l == entries);
        assert forall|i: int| 0 <= i < children.len() implies resized_each(children, disk)[i]
            == Ok::<NodeView, FsError>(children[i]) by {
            assert(steps[i] == scan(disk, entries[i]));
            lemma_scan_is_current(disk, entries[i]);
        }
        lemma_none_failed(resized_each(children, disk), children);
    }
}

/// Bringing a size up to date twice against the same snapshot gives what
/// doing it once gives.
pub proof fn lemma_resize_is_idempotent(node: NodeView, disk: Disk)
    requires
        sound(disk),
    ensures
        resized(node, disk) matches Ok(once) ==> resized(once, disk) == Ok::<NodeView, FsError>(
            once,
        ),
    decreases node,
{
    if let Ok(once) = resized(node, disk) {
        if node.node_type == NodeType::Directory {
            match node.children {
                None => {
                    lemma_scans_are_current(disk, node.path, listing_of(disk, node.path)->Ok_0);
                },
                Some(children) => {
                    let steps = resized_each(children, disk);
                    lemma_all_succeeded(steps);
                    let current = all_or_first_failure(steps)->Ok_0;
                    assert forall|i: int| 0 <= i < current.len() implies resized_each(
                        current,
                        disk,
                    )[i] == Ok::<NodeView, FsError>(current[i]) by {
                        assert(steps[i] == resized(children[i], disk));
                        lemma_resize_is_idempotent(children[i], disk);
                    }
                    lemma_none_failed(resized_each(current, disk), current);
                },
            }
        }
    }
}

/// Refreshing twice from the same snapshot gives what refreshing once
/// gives: the sizes, the children, everything.
pub proof fn lemma_refresh_is_idempotent(node: NodeView, disk: Disk)
    requires
        sound(disk),
    ensures
        refreshed(node, disk) matches Ok(once) ==> refreshed(once, disk) == Ok::<
            NodeView,
            FsError,
        >(once),
{
    if let Ok(once) = refreshed(node, disk) {
        if node.node_type == NodeType::Directory {
            let entries = listing_of(disk, node.path)->Ok_0;
            let children = scan_entries(disk, node.path, entries)->Ok_0;
            lemma_scans_are_current(disk, node.path, entries);
            assert(once == directory(node.path, node.metadata, children)->Ok_0);
            assert(populated(once, disk) == Ok::<NodeView, FsError>(once));
        }
    }
}

} // verus!
