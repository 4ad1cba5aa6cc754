//! The working index: what the next revision would record, and the
//! conflicts that a merge has left in it.

use vstd::prelude::*;
use crate::content::content_view;
use crate::error::SyncError;
use crate::path::{ascending, owned_path};
use crate::path_map::PathMap;
use crate::tree::Tree;

verus! {

/// The versions of a path on which a merge could not decide. A version is
/// absent where that side has no file under the path.
pub struct ConflictSides {
    pub base: Option<Vec<u8>>,
    pub ours: Option<Vec<u8>>,
    pub theirs: Option<Vec<u8>>,
}

/// The versions of a conflicted path as plain values.
pub struct SidesView {
    pub base: Option<Seq<u8>>,
    pub ours: Option<Seq<u8>>,
    pub theirs: Option<Seq<u8>>,
}

impl View for ConflictSides {
    type V = SidesView;

    open spec fn view(&self) -> SidesView {
        SidesView {
            base: content_view(self.base),
            ours: content_view(self.ours),
            theirs: content_view(self.theirs),
        }
    }
}

/// One row of a conflict report: a path and which of its versions exist.
#[derive(Debug, PartialEq, Eq)]
pub struct ConflictEntry {
    pub path: String,
    pub local: bool,
    pub remote: bool,
    pub base: bool,
}

/// How the caller settles a conflicted path.
pub enum Resolution {
    /// Keep the local version.
    UseLocal,
    /// Take the remote version.
    UseRemote,
    /// Use the content supplied.
    Content(Vec<u8>),
}

/// What a resolution leaves under the path: a content, or no file where the
/// chosen side has none.
pub open spec fn resolved_content(sides: SidesView, resolution: Resolution) -> Option<Seq<u8>> {
    match resolution {
        Resolution::UseLocal => sides.ours,
        Resolution::UseRemote => sides.theirs,
        Resolution::Content(c) => Some(c@),
    }
}

/// `m` with `p` bound to `c`, or without `p` where `c` is absent.
pub open spec fn with_content(m: Map<Seq<char>, Seq<u8>>, p: Seq<char>, c: Option<Seq<u8>>) -> Map<
    Seq<char>,
    Seq<u8>,
> {
    match c {
        Some(v) => m.insert(p, v),
        None => m.remove(p),
    }
}

/// The staging area. A path is either staged with one content or
/// conflicted, never both.
pub struct WorkingIndex {
    staged: Tree,
    conflicts: PathMap<ConflictSides>,
}

impl WorkingIndex {
    /// Both parts are in path order and no path is in both.
    pub closed spec fn wf(&self) -> bool {
        &&& self.staged.wf()
        &&& self.conflicts.wf()
        &&& self.staged@.dom().disjoint(self.conflicts@.dom())
    }

    /// The staged files.
    pub closed spec fn staged(&self) -> Map<Seq<char>, Seq<u8>> {
        self.staged@
    }

    /// The conflicted paths with their versions.
    pub closed spec fn conflicts(&self) -> Map<Seq<char>, SidesView> {
        self.conflicts@.map_values(|c: ConflictSides| c@)
    }

    /// The conflicted paths in the order in which they are reported.
    pub closed spec fn conflict_paths(&self) -> Seq<Seq<char>> {
        self.conflicts.paths()
    }

    /// Some path is conflicted.
    pub open spec fn conflicted(&self) -> bool {
        self.conflict_paths().len() > 0
    }

    /// The reported paths are exactly the conflicted paths, ascending, and
    /// none of them is staged.
    pub proof fn lemma_conflict_paths(&self)
        requires
            self.wf(),
        ensures
            ascending(self.conflict_paths()),
            self.conflicts().dom() =~= self.conflict_paths().to_set(),
            self.conflicts().dom().finite(),
            self.conflicts().dom().len() == self.conflict_paths().len(),
            self.staged().dom().disjoint(self.conflicts().dom()),
            self.conflicted() <==> exists|p: Seq<char>| self.conflicts().dom().contains(p),
    {
        self.conflicts.lemma_finite();
        assert(self.conflicts().dom() =~= self.conflicts@.dom());
        let ps = self.conflict_paths();
        assert(ps.no_duplicates()) by {
            assert forall|i: int, j: int| 0 <= i < ps.len() && 0 <= j < ps.len() && i != j implies ps[i]
                != ps[j] by {
                if i < j {
                    crate::path::lemma_path_lt_asymmetric(ps[i], ps[j]);
                } else {
                    crate::path::lemma_path_lt_asymmetric(ps[j], ps[i]);
                }
            }
        }
        ps.unique_seq_to_set();
        if ps.len() > 0 {
            assert(ps.to_set().contains(ps[0]));
        }
    }

    /// The index without any entry.
    pub fn new() -> (r: Self)
        ensures
            r.wf(),
            r.staged() == Map::<Seq<char>, Seq<u8>>::empty(),
            r.conflicts() == Map::<Seq<char>, SidesView>::empty(),
            !r.conflicted(),
    {
        let r = WorkingIndex { staged: Tree::new(), conflicts: PathMap::new() };
        assert(r.conflicts() =~= Map::<Seq<char>, SidesView>::empty());
        r
    }

    /// The clean index that stages exactly the files of `tree`.
    pub fn from_tree(tree: &Tree) -> (r: Self)
        requires
            tree.wf(),
        ensures
            r.wf(),
            r.staged() == tree@,
            r.conflicts() == Map::<Seq<char>, SidesView>::empty(),
            !r.conflicted(),
    {
        let r = WorkingIndex { staged: tree.duplicate(), conflicts: PathMap::new() };
        assert(r.conflicts() =~= Map::<Seq<char>, SidesView>::empty());
        r
    }

    /// The staged files as a tree.
    pub fn tree(&self) -> (t: &Tree)
        requires
            self.wf(),
        ensures
            t.wf(),
            t@ == self.staged(),
    {
        &self.staged
    }

    /// Whether any path is conflicted.
    pub fn has_conflicts(&self) -> (r: bool)
        requires
            self.wf(),
        ensures
            r == self.conflicted(),
    {
        self.conflicts.len() > 0
    }

    /// The conflicted paths, in ascending path order, each with the versions
    /// that exist of it.
    pub fn list_conflicts(&self) -> (r: Vec<ConflictEntry>)
        requires
            self.wf(),
        ensures
            r@.len() == self.conflict_paths().len(),
            forall|i: int|
                0 <= i < r@.len() ==> {
                    let e = #[trigger] r@[i];
                    let p = self.conflict_paths()[i];
                    &&& e.path@ == p
                    &&& self.conflicts().dom().contains(p)
                    &&& e.local == (self.conflicts()[p].ours is Some)
                    &&& e.remote == (self.conflicts()[p].theirs is Some)
                    &&& e.base == (self.conflicts()[p].base is Some)
                },
    {
        let mut r: Vec<ConflictEntry> = Vec::new();
        let n: usize = self.conflicts.len();
        let mut i: usize = 0;
        while i < n
            invariant
                self.wf(),
                n == self.conflict_paths().len(),
                i <= n,
                r@.len() == i,
                forall|j: int|
                    0 <= j < i ==> {
                        let e = #[trigger] r@[j];
                        let p = self.conflict_paths()[j];
                        &&& e.path@ == p
                        &&& self.conflicts().dom().contains(p)
                        &&& e.local == (self.conflicts()[p].ours is Some)
                        &&& e.remote == (self.conflicts()[p].theirs is Some)
                        &&& e.base == (self.conflicts()[p].base is Some)
                    },
            decreases n - i,
        {
            let sides = self.conflicts.value_at(i);
            let entry = ConflictEntry {
                path: self.conflicts.path_at(i).clone(),
                local: sides.ours.is_some(),
                remote: sides.theirs.is_some(),
                base: sides.base.is_some(),
            };
            proof {
                self.conflicts.lemma_entry(i as int);
            }
            r.push(entry);
            i = i + 1;
        }
        r
    }

    /// The versions of the conflicted path `path`.
    pub fn sides(&self, path: &str) -> (r: Option<&ConflictSides>)
        requires
            self.wf(),
        ensures
            r is Some <==> self.conflicts().dom().contains(path@),
            r matches Some(s) ==> s@ == self.conflicts()[path@],
    {
        self.conflicts.get(path)
    }

    /// Stages `content` under `path`. A conflict on the path is thereby
    /// settled.
    pub fn stage(&mut self, path: String, content: Vec<u8>)
        requires
            old(self).wf(),
        ensures
            final(self).wf(),
            final(self).staged() == old(self).staged().insert(path@, content@),
            final(self).conflicts() == old(self).conflicts().remove(path@),
    {
        let _ = self.conflicts.take(path.as_str());
        self.staged.put(path, content);
        proof {
            assert(self.conflicts() =~= old(self).conflicts().remove(path@));
        }
    }

    /// Removes `path` from the index, staged or conflicted.
    pub fn discard(&mut self, path: &str)
        requires
            old(self).wf(),
        ensures
            final(self).wf(),
            final(self).staged() == old(self).staged().remove(path@),
            final(self).conflicts() == old(self).conflicts().remove(path@),
    {
        let _ = self.conflicts.take(path);
        let _ = self.staged.remove(path);
        proof {
            assert(self.conflicts() =~= old(self).conflicts().remove(path@));
        }
    }

    /// Stages `content` under `path`, or removes the path where `content`
    /// is absent.
    pub fn settle(&mut self, path: String, content: Option<Vec<u8>>)
        requires
            old(self).wf(),
        ensures
            final(self).wf(),
            final(self).staged() == with_content(old(self).staged(), path@, content_view(content)),
            final(self).conflicts() == old(self).conflicts().remove(path@),
    {
        match content {
            Some(c) => self.stage(path, c),
            None => self.discard(path.as_str()),
        }
    }

    /// Records that `path` is conflicted, with the versions given. The path
    /// is no longer staged.
    pub fn mark_conflict(&mut self, path: String, sides: ConflictSides)
        requires
            old(self).wf(),
        ensures
            final(self).wf(),
            final(self).staged() == old(self).staged().remove(path@),
            final(self).conflicts() == old(self).conflicts().insert(path@, sides@),
    {
        let _ = self.staged.remove(path.as_str());
        self.conflicts.put(path, sides);
        proof {
            assert(self.conflicts() =~= old(self).conflicts().insert(path@, sides@));
        }
    }

    /// Settles the conflict on `path` as the caller chose, leaving a single
    /// staged entry, or none where the chosen side has no file.
    /// `NotFoundError`, and no change, if the path is not conflicted.
    pub fn resolve(&mut self, path: &str, resolution: Resolution) -> (r: Result<(), SyncError>)
        requires
            old(self).wf(),
        ensures
            final(self).wf(),
            r is Ok <==> old(self).conflicts().dom().contains(path@),
            r is Ok ==> final(self).conflicts() == old(self).conflicts().remove(path@)
                && final(self).staged() == with_content(
                old(self).staged(),
                path@,
                resolved_content(old(self).conflicts()[path@], resolution),
            ),
            r matches Err(e) ==> e == SyncError::NotFoundError && final(self).staged() == old(
                self,
            ).staged() && final(self).conflicts() == old(self).conflicts(),
    {
        let ghost before = self.conflicts();
        let taken = self.conflicts.take(path);
        proof {
            assert(self.conflicts() =~= before.remove(path@));
        }
        match taken {
            None => {
                proof {
                    assert(self.conflicts() =~= before);
                }
                Err(SyncError::NotFoundError)
            },
            Some(sides) => {
                let chosen: Option<Vec<u8>> = match resolution {
                    Resolution::UseLocal => sides.ours,
                    Resolution::UseRemote => sides.theirs,
                    Resolution::Content(c) => Some(c),
                };
                match chosen {
                    Some(c) => {
                        let p = owned_path(path);
                        self.staged.put(p, c);
                    },
                    None => {
                        let _ = self.staged.remove(path);
                    },
                }
                Ok(())
            },
        }
    }
}

} // verus!
