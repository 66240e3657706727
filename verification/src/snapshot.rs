//! A snapshot of the filesystem: what reading each path gave.

use crate::error::FsError;
use crate::node::ExtendedMetadata;
use vstd::hash_map::StringHashMap;
use vstd::prelude::*;
use vstd::string::StrSliceExecFns;

verus! {

/// What reading the type and metadata of a path gave, beside the type.
#[derive(Debug, Clone, Copy)]
pub struct FileStat {
    /// Byte length as the filesystem reports it.
    pub size: u64,
    /// Timestamps of the entry.
    pub metadata: ExtendedMetadata,
}

/// What the filesystem answered when one path was read.
#[derive(Debug)]
pub enum Probe {
    /// Reading the type and metadata failed.
    Unreadable(FsError),
    /// The path is a file.
    File(FileStat),
    /// The path is a directory; the second field is the outcome of listing
    /// it: the paths of its entries in the order of enumeration.
    Directory(FileStat, Result<Vec<String>, FsError>),
}

/// The mathematical value of a [`Probe`].
pub ghost enum ProbeView {
    Unreadable(FsError),
    File(FileStat),
    Directory(FileStat, Result<Seq<Seq<char>>, FsError>),
}

/// The paths held by a vector of strings.
pub open spec fn paths_of(v: Seq<String>) -> Seq<Seq<char>> {
    Seq::new(v.len(), |i: int| v[i]@)
}

impl View for Probe {
    type V = ProbeView;

    open spec fn view(&self) -> ProbeView {
        match *self {
            Probe::Unreadable(e) => ProbeView::Unreadable(e),
            Probe::File(st) => ProbeView::File(st),
            Probe::Directory(st, Ok(v)) => ProbeView::Directory(st, Ok(paths_of(v@))),
            Probe::Directory(st, Err(e)) => ProbeView::Directory(st, Err(e)),
        }
    }
}

/// A snapshot as a map from path to answer. A path outside the domain was
/// not found.
pub type Disk = Map<Seq<char>, ProbeView>;

/// Every entry of a listed directory has a longer path than the directory.
pub open spec fn entries_below(path: Seq<char>, probe: ProbeView) -> bool {
    probe matches ProbeView::Directory(_, Ok(entries)) ==> forall|i: int|
        0 <= i < entries.len() ==> (#[trigger] entries[i]).len() > path.len()
}

/// No recorded path is longer than `bound`.
pub open spec fn bounded(disk: Disk, bound: nat) -> bool {
    forall|p: Seq<char>| disk.dom().contains(p) ==> p.len() <= bound
}

/// What holds of every snapshot: the recorded paths have a longest one, and
/// the entries of a directory lie below it. This bounds the depth of any walk
/// through the listings.
pub open spec fn sound(disk: Disk) -> bool {
    &&& exists|bound: nat| bounded(disk, bound)
    &&& forall|p: Seq<char>| disk.dom().contains(p) ==> entries_below(p, #[trigger] disk[p])
}

/// A length that no recorded path exceeds.
pub closed spec fn depth_bound(disk: Disk) -> nat {
    choose|bound: nat| bounded(disk, bound)
}

/// In a sound snapshot no recorded path is longer than `depth_bound`.
pub proof fn lemma_depth_bound(disk: Disk)
    requires
        sound(disk),
    ensures
        bounded(disk, depth_bound(disk)),
{
}

/// How far below `path` a recorded path can still lie, counted in
/// characters and one more; zero for a path too long to be recorded.
pub open spec fn room(disk: Disk, path: Seq<char>) -> nat {
    if path.len() <= depth_bound(disk) {
        (depth_bound(disk) - path.len() + 1) as nat
    } else {
        0
    }
}

/// Type and metadata of `path`, as reading them would give.
pub open spec fn stat_of(disk: Disk, path: Seq<char>) -> Result<(bool, FileStat), FsError> {
    if !disk.dom().contains(path) {
        Err(FsError::NotFound)
    } else {
        match disk[path] {
            ProbeView::Unreadable(e) => Err(e),
            ProbeView::File(st) => Ok((false, st)),
            ProbeView::Directory(st, _) => Ok((true, st)),
        }
    }
}

/// The paths of the entries of `path`, as listing it would give.
pub open spec fn listing_of(disk: Disk, path: Seq<char>) -> Result<Seq<Seq<char>>, FsError> {
    if !disk.dom().contains(path) {
        Err(FsError::NotFound)
    } else {
        match disk[path] {
            ProbeView::Unreadable(e) => Err(e),
            ProbeView::File(_) => Err(FsError::NotADirectory),
            ProbeView::Directory(_, listing) => listing,
        }
    }
}

/// A record of what the filesystem answered for each path that was read.
pub struct FsSnapshot {
    entries: StringHashMap<Probe>,
    longest: Ghost<nat>,
}

impl View for FsSnapshot {
    type V = Disk;

    closed spec fn view(&self) -> Disk {
        self.entries@.map_values(|p: Probe| p@)
    }
}

impl FsSnapshot {
    #[verifier::type_invariant]
    spec fn inv(self) -> bool {
        &&& bounded(self@, self.longest@)
        &&& forall|p: Seq<char>| self@.dom().contains(p) ==> entries_below(p, #[trigger] self@[p])
    }

    /// A snapshot that holds no path.
    pub fn new() -> (snap: Self)
        ensures
            snap@ == Map::<Seq<char>, ProbeView>::empty(),
            sound(snap@),
    {
        let snap = FsSnapshot { entries: StringHashMap::new(), longest: Ghost(0) };
        assert(snap@ =~= Map::<Seq<char>, ProbeView>::empty());
        assert(bounded(snap@, 0));
        snap
    }

    /// Tells whether every entry of a listed directory has a longer path
    /// than the directory itself.
    pub fn fits(path: &str, probe: &Probe) -> (ok: bool)
        ensures
            ok == entries_below(path@, probe@),
    {
        match probe {
            Probe::Directory(_, Ok(entries)) => {
                let len = path.unicode_len();
                let mut i: usize = 0;
                while i < entries.len()
                    invariant
                        i <= entries.len(),
                        len == path@.len(),
                        probe@ matches ProbeView::Directory(_, Ok(listed)) && listed == paths_of(
                            entries@,
                        ),
                        forall|j: int| 0 <= j < i ==> (#[trigger] entries@[j])@.len() > path@.len(),
                    decreases entries.len() - i,
                {
                    if entries[i].as_str().unicode_len() <= len {
                        assert(paths_of(entries@)[i as int].len() <= path@.len());
                        return false;
                    }
                    i += 1;
                }
                assert forall|j: int| 0 <= j < paths_of(entries@).len() implies (
                #[trigger] paths_of(entries@)[j]).len() > path@.len() by {
                    assert(paths_of(entries@)[j] == entries@[j]@);
                }
                true
            },
            _ => true,
        }
    }

    /// Records the answer for `path`, in place of an earlier one. An answer
    /// that lists an entry whose path is not longer than `path` is refused,
    /// and the snapshot stays as it was.
    pub fn insert(&mut self, path: String, probe: Probe) -> (accepted: bool)
        ensures
            accepted == entries_below(path@, probe@),
            accepted ==> final(self)@ == old(self)@.insert(path@, probe@),
            !accepted ==> final(self)@ == old(self)@,
            sound(final(self)@),
    {
        proof {
            use_type_invariant(&*self);
        }
        if !Self::fits(path.as_str(), &probe) {
            assert(bounded(self@, self.longest@));
            return false;
        }
        let ghost before = self@;
        let ghost bound: nat = if path@.len() > self.longest@ { path@.len() } else { self.longest@ };
        let mut entries = StringHashMap::new();
        assert(entries@.map_values(|p: Probe| p@) =~= Map::<Seq<char>, ProbeView>::empty());
        std::mem::swap(&mut self.entries, &mut entries);
        entries.insert(path, probe);
        assert(entries@.map_values(|p: Probe| p@) =~= before.insert(path@, probe@));
        *self = FsSnapshot { entries, longest: Ghost(bound) };
        true
    }

    /// Every snapshot is sound. This does nothing when it runs.
    pub(crate) fn is_sound(&self)
        ensures
            sound(self@),
    {
        proof {
            use_type_invariant(self);
            assert(bounded(self@, self.longest@));
        }
    }

    /// The answer recorded for `path`, if there is one.
    pub fn get(&self, path: &str) -> (r: Option<&Probe>)
        ensures
            sound(self@),
            match r {
                Some(probe) => self@.dom().contains(path@) && self@[path@] == probe@,
                None => !self@.dom().contains(path@),
            },
    {
        proof {
            use_type_invariant(self);
            assert(bounded(self@, self.longest@));
        }
        self.entries.get(path)
    }
}

} // verus!
