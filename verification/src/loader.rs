//! Gathering a snapshot, one read after the other.

use crate::error::FsError;
use crate::scan::{lemma_scans, scan, scans};
use crate::snapshot::{
    entries_below, lemma_depth_bound, listing_of, paths_of, room, sound, stat_of, Disk,
    FsSnapshot, Probe, ProbeView,
};
use vstd::prelude::*;
use vstd::string::StringExecFns;

verus! {

/// The paths that an answer gives to read: the entries of a directory that
/// could be listed, and nothing else.
pub open spec fn listed(probe: ProbeView) -> Seq<Seq<char>> {
    match probe {
        ProbeView::Directory(_, Ok(entries)) => entries,
        _ => Seq::empty(),
    }
}

/// Gathers a snapshot path by path. It says which path is to be read next
/// and takes what reading it gave; the entries of each directory are read
/// in their turn, until nothing is left to read.
pub struct SnapshotLoader {
    snapshot: FsSnapshot,
    pending: Vec<String>,
}

impl SnapshotLoader {
    /// The paths that are still to be read. The last one is read next.
    pub closed spec fn pending(&self) -> Seq<Seq<char>> {
        paths_of(self.pending@)
    }

    /// What was gathered so far.
    pub closed spec fn gathered(&self) -> Disk {
        self.snapshot@
    }

    /// A loader that has `root` to read and nothing gathered.
    pub fn new(root: &str) -> (loader: Self)
        ensures
            loader.pending() == seq![root@],
            loader.gathered() == Map::<Seq<char>, ProbeView>::empty(),
    {
        let mut pending: Vec<String> = Vec::new();
        pending.push(String::from_str(root));
        assert(paths_of(pending@) =~= seq![root@]);
        SnapshotLoader { snapshot: FsSnapshot::new(), pending }
    }

    /// The path to read next; `None` when everything was read.
    pub fn next_path(&self) -> (r: Option<&String>)
        ensures
            match r {
                Some(path) => self.pending().len() > 0 && path@ == self.pending().last(),
                None => self.pending().len() == 0,
            },
    {
        if self.pending.len() == 0 {
            None
        } else {
            Some(&self.pending[self.pending.len() - 1])
        }
    }

    /// Takes the answer for the path that was to be read next. The answer
    /// is recorded and the entries it lists are to be read after it. An
    /// answer that the snapshot refuses is dropped, and so is one that comes
    /// when nothing was to be read.
    pub fn record(&mut self, probe: Probe) -> (accepted: bool)
        ensures
            old(self).pending().len() == 0 ==> !accepted && final(self).pending() == old(
                self,
            ).pending() && final(self).gathered() == old(self).gathered(),
            old(self).pending().len() > 0 ==> accepted == entries_below(
                old(self).pending().last(),
                probe@,
            ),
            old(self).pending().len() > 0 && accepted ==> final(self).pending() == old(
                self,
            ).pending().drop_last() + listed(probe@) && final(self).gathered() == old(
                self,
            ).gathered().insert(old(self).pending().last(), probe@),
            old(self).pending().len() > 0 && !accepted ==> final(self).pending() == old(
                self,
            ).pending().drop_last() && final(self).gathered() == old(self).gathered(),
    {
        let ghost before = paths_of(self.pending@);
        match self.pending.pop() {
            None => false,
            Some(path) => {
                assert(paths_of(self.pending@) =~= before.drop_last());
                assert(path@ == before.last());
                if !FsSnapshot::fits(path.as_str(), &probe) {
                    return false;
                }
                match &probe {
                    Probe::Directory(_, Ok(entries)) => {
                        let mut i: usize = 0;
                        while i < entries.len()
                            invariant
                                i <= entries.len(),
                                paths_of(self.pending@) == before.drop_last() + paths_of(
                                    entries@,
                                ).take(i as int),
                                self.snapshot == old(self).snapshot,
                            decreases entries.len() - i,
                        {
                            let ghost queued = paths_of(self.pending@);
                            self.pending.push(entries[i].clone());
                            assert(paths_of(self.pending@) =~= queued.push(entries@[i as int]@));
                            assert(paths_of(entries@).take(i + 1) =~= paths_of(entries@).take(
                                i as int,
                            ).push(entries@[i as int]@));
                            i += 1;
                        }
                        assert(paths_of(entries@).take(i as int) =~= paths_of(entries@));
                    },
                    _ => {
                        assert(paths_of(self.pending@) =~= before.drop_last() + listed(probe@));
                    },
                }
                self.snapshot.insert(path, probe)
            },
        }
    }

    /// Whether nothing is left to read.
    pub fn is_done(&self) -> (done: bool)
        ensures
            done == (self.pending().len() == 0),
    {
        self.pending.len() == 0
    }

    /// The snapshot that was gathered.
    pub fn finish(self) -> (snap: FsSnapshot)
        ensures
            snap@ == self.gathered(),
            sound(snap@),
    {
        self.snapshot.is_sound();
        self.snapshot
    }
}

/// What reading `path` gives on the filesystem `disk`: what `disk` holds
/// there, and `NotFound` where it holds nothing.
pub open spec fn answer(disk: Disk, path: Seq<char>) -> ProbeView {
    if disk.dom().contains(path) {
        disk[path]
    } else {
        ProbeView::Unreadable(FsError::NotFound)
    }
}

/// Whether a loader is on its way to a true copy of what `disk` holds at
/// and below `root`: what it gathered is what `disk` answers, and `root` and
/// every entry of a gathered listing is either gathered or still to be read.
pub open spec fn on_course(
    pending: Seq<Seq<char>>,
    gathered: Disk,
    disk: Disk,
    root: Seq<char>,
) -> bool {
    &&& forall|p: Seq<char>| gathered.dom().contains(p) ==> #[trigger] gathered[p] == answer(disk, p)
    &&& gathered.dom().contains(root) || pending.contains(root)
    &&& forall|p: Seq<char>, i: int|
        gathered.dom().contains(p) && 0 <= i < listed(gathered[p]).len() ==> {
            ||| gathered.dom().contains(#[trigger] listed(gathered[p])[i])
            ||| pending.contains(listed(gathered[p])[i])
        }
}

/// A loader that was just made is on course.
pub proof fn lemma_loader_starts_on_course(disk: Disk, root: Seq<char>)
    ensures
        on_course(seq![root], Map::<Seq<char>, ProbeView>::empty(), disk, root),
{
    assert(seq![root][0] == root);
}

/// A loader on course that is given what the disk answers for the path it
/// asked for takes the answer and stays on course.
pub proof fn lemma_loader_stays_on_course(
    pending: Seq<Seq<char>>,
    gathered: Disk,
    disk: Disk,
    root: Seq<char>,
)
    requires
        sound(disk),
        pending.len() > 0,
        on_course(pending, gathered, disk, root),
    ensures
        entries_below(pending.last(), answer(disk, pending.last())),
        on_course(
            pending.drop_last() + listed(answer(disk, pending.last())),
            gathered.insert(pending.last(), answer(disk, pending.last())),
            disk,
            root,
        ),
{
    let path = pending.last();
    let given = answer(disk, path);
    let next = pending.drop_last() + listed(given);
    let more = gathered.insert(path, given);
    assert forall|q: Seq<char>| pending.contains(q) implies more.dom().contains(q)
        || next.contains(q) by {
        let k = choose|k: int| 0 <= k < pending.len() && pending[k] == q;
        if k < pending.len() - 1 {
            assert(next[k] == q);
        }
    }
    assert forall|p: Seq<char>, i: int|
        more.dom().contains(p) && 0 <= i < listed(more[p]).len() implies more.dom().contains(
        #[trigger] listed(more[p])[i],
    ) || next.contains(listed(more[p])[i]) by {
        let entry = listed(more[p])[i];
        if p == path {
            assert(next[pending.len() - 1 + i] == entry);
        } else {
            assert(gathered.dom().contains(listed(gathered[p])[i]) || pending.contains(
                listed(gathered[p])[i],
            ));
        }
    }
}

/// What a loader on course has gathered when nothing is left to read gives
/// the same scan of `root` as the disk itself.
pub proof fn lemma_loaded_is_faithful(gathered: Disk, disk: Disk, root: Seq<char>)
    requires
        sound(disk),
        sound(gathered),
        on_course(Seq::empty(), gathered, disk, root),
    ensures
        scan(gathered, root) == scan(disk, root),
{
    lemma_gathered_scans_alike(gathered, disk, root, root);
}

/// Below a gathered path the gathering and the disk scan alike.
pub proof fn lemma_gathered_scans_alike(
    gathered: Disk,
    disk: Disk,
    root: Seq<char>,
    path: Seq<char>,
)
    requires
        sound(disk),
        sound(gathered),
        on_course(Seq::empty(), gathered, disk, root),
        gathered.dom().contains(path),
    ensures
        scan(gathered, path) == scan(disk, path),
    decreases room(gathered, path),
{
    assert(gathered[path] == answer(disk, path));
    assert(stat_of(gathered, path) == stat_of(disk, path));
    if let Ok((true, st)) = stat_of(disk, path) {
        assert(listing_of(gathered, path) == listing_of(disk, path));
        if let Ok(entries) = listing_of(disk, path) {
            lemma_scans(gathered, path, entries);
            lemma_scans(disk, path, entries);
            lemma_depth_bound(gathered);
            assert(entries_below(path, gathered[path]));
            assert forall|i: int| 0 <= i < entries.len() implies scans(gathered, path, entries)[i]
                == scans(disk, path, entries)[i] by {
                assert(listed(gathered[path])[i] == entries[i]);
                assert(gathered.dom().contains(entries[i]));
                lemma_gathered_scans_alike(gathered, disk, root, entries[i]);
            }
            assert(scans(gathered, path, entries) =~= scans(disk, path, entries));
        }
    }
}

} // verus!
