//! The local repository: its history, its references and its working
//! index, with the operations that stage and commit.

use vstd::prelude::*;
use crate::error::SyncError;
use crate::history::{has_id, slot_of_id, History};
use crate::content::copy_bytes;
use crate::index::{resolved_content, with_content, ConflictEntry, Resolution, WorkingIndex};
use crate::naming::{commit_object_name, content_bytes, encode_content, name_content};
use crate::path::{owned_path, same_text};
use crate::revision::{texts, Identity, Revision, RevisionId, RevisionView};
use crate::tree::Tree;

verus! {

/// The text of an optional name.
pub open spec fn name_view(o: Option<RevisionId>) -> Option<Seq<char>> {
    match o {
        Some(s) => Some(s@),
        None => None,
    }
}

/// Whether two lists of names are the same.
pub fn same_names(a: &Vec<RevisionId>, b: &Vec<RevisionId>) -> (r: bool)
    ensures
        r == (texts(a@) == texts(b@)),
{
    if a.len() != b.len() {
        proof {
            assert(texts(a@).len() != texts(b@).len());
        }
        return false;
    }
    let n: usize = a.len();
    let mut i: usize = 0;
    while i < n
        invariant
            n == a@.len(),
            n == b@.len(),
            i <= n,
            forall|j: int| 0 <= j < i ==> (#[trigger] a@[j])@ == b@[j]@,
        decreases n - i,
    {
        if !same_text(a[i].as_str(), b[i].as_str()) {
            proof {
                assert(texts(a@)[i as int] != texts(b@)[i as int]);
            }
            return false;
        }
        i = i + 1;
    }
    proof {
        assert(texts(a@) =~= texts(b@));
    }
    true
}

/// Whether two revisions are the same in name and content.
pub fn same_revision(a: &Revision, b: &Revision) -> (r: bool)
    requires
        a.tree.wf(),
        b.tree.wf(),
    ensures
        r == (a@ == b@),
{
    same_text(a.id.as_str(), b.id.as_str()) && same_names(&a.parents, &b.parents) && a.tree.same_as(
        &b.tree,
    ) && same_text(a.message.as_str(), b.message.as_str()) && same_text(
        a.author.name.as_str(),
        b.author.name.as_str(),
    ) && same_text(a.author.email.as_str(), b.author.email.as_str()) && a.timestamp == b.timestamp
}

/// A local repository.
pub struct Repository {
    /// Where the repository lives.
    pub path: String,
    /// Every revision known locally.
    pub history: History,
    /// The tip of the local branch, once a revision exists.
    pub head: Option<RevisionId>,
    /// The tip of the remote branch as of the last fetch.
    pub remote_head: Option<RevisionId>,
    /// The remote head of a merge that waits for its conflicts to be
    /// resolved; the next commit takes it as second parent.
    pub merge_head: Option<RevisionId>,
    /// What the next commit would record.
    pub index: WorkingIndex,
}

/// What stands at the place where a repository is to be opened.
pub enum Found {
    /// Nothing, or an empty directory.
    Nothing,
    /// A repository.
    Repository(Repository),
    /// Something that is no repository.
    Other,
}

/// The parents that the next commit gets.
pub open spec fn next_parents(head: Option<Seq<char>>, merge_head: Option<Seq<char>>) -> Seq<
    Seq<char>,
> {
    match head {
        None => Seq::empty(),
        Some(h) => match merge_head {
            None => seq![h],
            Some(m) => seq![h, m],
        },
    }
}

/// The files staged once every path of `paths` has been staged from
/// `worktree`.
pub open spec fn staged_with(
    staged: Map<Seq<char>, Seq<u8>>,
    worktree: Map<Seq<char>, Seq<u8>>,
    paths: Seq<Seq<char>>,
) -> Map<Seq<char>, Seq<u8>> {
    Map::new(
        |p: Seq<char>| staged.dom().contains(p) || paths.contains(p),
        |p: Seq<char>|
            if paths.contains(p) {
                worktree[p]
            } else {
                staged[p]
            },
    )
}

impl Repository {
    /// Every part is well formed and no reference points to a revision that
    /// the history does not hold.
    pub open spec fn wf(&self) -> bool {
        &&& self.history.wf()
        &&& self.index.wf()
        &&& self.head matches Some(h) ==> has_id(self.history@, h@)
        &&& self.remote_head matches Some(t) ==> has_id(self.history@, t@)
        &&& self.merge_head matches Some(m) ==> has_id(self.history@, m@) && self.head is Some
    }

    /// The revision that the next commit would record under the name `id`.
    pub open spec fn next_revision(
        &self,
        id: Seq<char>,
        message: Seq<char>,
        author_name: Seq<char>,
        author_email: Seq<char>,
        timestamp: u64,
    ) -> RevisionView {
        RevisionView {
            id: id,
            parents: next_parents(name_view(self.head), name_view(self.merge_head)),
            tree: self.index.staged(),
            message: message,
            author_name: author_name,
            author_email: author_email,
            timestamp: timestamp,
        }
    }

    /// What a commit of `rv` answers: refused while the index is
    /// conflicted, and where the name is already held by another content.
    pub open spec fn commit_outcome(&self, rv: RevisionView) -> Result<(), SyncError> {
        if self.index.conflicted() {
            Err(SyncError::ConflictedIndexError)
        } else if has_id(self.history@, rv.id) && self.history@[slot_of_id(self.history@, rv.id)]
            != rv {
            Err(SyncError::StorageError)
        } else {
            Ok(())
        }
    }

    /// The name that a commit gives to the next revision: the object name
    /// of its content, where the content has one.
    pub open spec fn next_name(
        &self,
        message: Seq<char>,
        author_name: Seq<char>,
        author_email: Seq<char>,
        timestamp: u64,
    ) -> Option<Seq<char>> {
        commit_object_name(
            content_bytes(
                self.next_revision(Seq::empty(), message, author_name, author_email, timestamp),
            ),
        )
    }

    /// What `commit` answers: the name of the new revision, or why the
    /// commit is refused. It is refused with `ConflictedIndexError` while
    /// the index is conflicted; with `StorageError` where the content has no
    /// object name, or the history holds another content under that name.
    pub open spec fn commit_result(
        &self,
        message: Seq<char>,
        author_name: Seq<char>,
        author_email: Seq<char>,
        timestamp: u64,
    ) -> Result<Seq<char>, SyncError> {
        if self.index.conflicted() {
            Err(SyncError::ConflictedIndexError)
        } else {
            match self.next_name(message, author_name, author_email, timestamp) {
                None => Err(SyncError::StorageError),
                Some(id) => match self.commit_outcome(
                    self.next_revision(id, message, author_name, author_email, timestamp),
                ) {
                    Ok(_) => Ok(id),
                    Err(e) => Err(e),
                },
            }
        }
    }

    /// What a successful commit of `rv` changes: the revision is held, once,
    /// the local reference points to it, no merge is pending any more, and
    /// the index is clean and reflects the tree of the revision.
    pub open spec fn committed(&self, before: &Repository, rv: RevisionView) -> bool {
        &&& self.path@ == before.path@
        &&& name_view(self.head) == Some(rv.id)
        &&& self.merge_head is None
        &&& name_view(self.remote_head) == name_view(before.remote_head)
        &&& self.index.staged() == rv.tree
        &&& !self.index.conflicted()
        &&& if has_id(before.history@, rv.id) {
            self.history@ == before.history@
        } else {
            self.history@ == before.history@.push(rv)
        }
    }

    /// An empty repository at `path`: no revision, no reference, a clean
    /// and empty index.
    pub fn init(path: &str) -> (r: Self)
        ensures
            r.wf(),
            r.path@ == path@,
            r.history@.len() == 0,
            r.head is None,
            r.remote_head is None,
            r.merge_head is None,
            r.index.staged() == Map::<Seq<char>, Seq<u8>>::empty(),
            !r.index.conflicted(),
    {
        Repository {
            path: owned_path(path),
            history: History::new(),
            head: None,
            remote_head: None,
            merge_head: None,
            index: WorkingIndex::new(),
        }
    }

    /// The repository at `path`: a new, empty one where nothing stands
    /// there, the one that stands there, or `StorageError` where the place is
    /// taken by something else.
    pub fn open_or_init(path: &str, found: Found) -> (r: Result<Self, SyncError>)
        requires
            found matches Found::Repository(held) ==> held.wf(),
        ensures
            r matches Ok(repo) ==> repo.wf(),
            match found {
                Found::Nothing => r matches Ok(repo) && repo.path@ == path@ && repo.history@.len()
                    == 0 && repo.head is None && repo.remote_head is None && repo.merge_head is None
                    && repo.index.staged() == Map::<Seq<char>, Seq<u8>>::empty()
                    && !repo.index.conflicted(),
                Found::Repository(held) => r matches Ok(repo) && repo == held,
                Found::Other => r matches Err(e) && e == SyncError::StorageError,
            },
    {
        match found {
            Found::Nothing => Ok(Repository::init(path)),
            Found::Repository(held) => Ok(held),
            Found::Other => Err(SyncError::StorageError),
        }
    }

    /// The tip of the local branch. `EmptyRepositoryError` if nothing was
    /// ever committed.
    pub fn current_head(&self) -> (r: Result<RevisionId, SyncError>)
        ensures
            r is Ok <==> self.head is Some,
            r matches Ok(id) ==> Some(id@) == name_view(self.head),
            r matches Err(e) ==> e == SyncError::EmptyRepositoryError,
    {
        match &self.head {
            Some(h) => Ok(h.clone()),
            None => Err(SyncError::EmptyRepositoryError),
        }
    }

    /// Stages the content that `worktree` holds under each of `paths`.
    /// `NotFoundError`, and no change, if `worktree` lacks one of them.
    /// Staging a conflicted path settles its conflict.
    pub fn stage(&mut self, worktree: &Tree, paths: &Vec<String>) -> (r: Result<(), SyncError>)
        requires
            old(self).wf(),
            worktree.wf(),
        ensures
            final(self).wf(),
            r is Ok <==> forall|k: int|
                0 <= k < paths@.len() ==> worktree@.dom().contains(#[trigger] texts(paths@)[k]),
            r matches Err(e) ==> e == SyncError::NotFoundError && *final(self) == *old(self),
            r is Ok ==> {
                &&& final(self).index.staged() == staged_with(
                    old(self).index.staged(),
                    worktree@,
                    texts(paths@),
                )
                &&& final(self).index.conflicts() == old(self).index.conflicts().remove_keys(
                    texts(paths@).to_set(),
                )
                &&& final(self).path@ == old(self).path@
                &&& final(self).history@ == old(self).history@
                &&& name_view(final(self).head) == name_view(old(self).head)
                &&& name_view(final(self).remote_head) == name_view(old(self).remote_head)
                &&& name_view(final(self).merge_head) == name_view(old(self).merge_head)
            },
    {
        let n: usize = paths.len();
        let ghost names = texts(paths@);
        let mut i: usize = 0;
        while i < n
            invariant
                *self == *old(self),
                self.wf(),
                worktree.wf(),
                n == paths@.len(),
                names == texts(paths@),
                i <= n,
                forall|k: int| 0 <= k < i ==> worktree@.dom().contains(#[trigger] names[k]),
            decreases n - i,
        {
            if !worktree.contains(paths[i].as_str()) {
                proof {
                    assert(!worktree@.dom().contains(names[i as int]));
                }
                return Err(SyncError::NotFoundError);
            }
            i = i + 1;
        }
        let ghost staged0 = self.index.staged();
        let ghost conflicts0 = self.index.conflicts();
        let mut k: usize = 0;
        proof {
            assert(self.index.staged() =~= staged_with(staged0, worktree@, names.take(0)));
            assert(self.index.conflicts() =~= conflicts0.remove_keys(names.take(0).to_set()));
        }
        while k < n
            invariant
                worktree.wf(),
                self.index.wf(),
                n == paths@.len(),
                names == texts(paths@),
                k <= n,
                forall|j: int| 0 <= j < n ==> worktree@.dom().contains(#[trigger] names[j]),
                self.index.staged() == staged_with(staged0, worktree@, names.take(k as int)),
                self.index.conflicts() == conflicts0.remove_keys(names.take(k as int).to_set()),
                self.path == old(self).path,
                self.history == old(self).history,
                self.head == old(self).head,
                self.remote_head == old(self).remote_head,
                self.merge_head == old(self).merge_head,
            decreases n - k,
        {
            let path = paths[k].clone();
            let content = match worktree.get(path.as_str()) {
                Some(c) => copy_bytes(c),
                None => {
                    proof {
                        assert(worktree@.dom().contains(names[k as int]));
                    }
                    Vec::new()
                },
            };
            let ghost p = path@;
            let ghost before_staged = self.index.staged();
            let ghost before_conflicts = self.index.conflicts();
            self.index.stage(path, content);
            proof {
                let prev = names.take(k as int);
                let cur = names.take(k + 1);
                assert(cur =~= prev.push(p));
                assert forall|q: Seq<char>| cur.contains(q) <==> (prev.contains(q) || q == p) by {
                    if prev.contains(q) {
                        let w = choose|w: int| 0 <= w < prev.len() && prev[w] == q;
                        assert(cur[w] == q);
                    }
                    if q == p {
                        assert(cur[k as int] == q);
                    }
                }
                assert(self.index.staged() =~= staged_with(staged0, worktree@, cur));
                assert(self.index.conflicts() =~= conflicts0.remove_keys(cur.to_set()));
            }
            k = k + 1;
        }
        proof {
            assert(names.take(n as int) =~= names);
        }
        Ok(())
    }

    /// Whether the index holds unresolved conflicts.
    pub fn has_conflicts(&self) -> (r: bool)
        requires
            self.wf(),
        ensures
            r == self.index.conflicted(),
    {
        self.index.has_conflicts()
    }

    /// The unresolved conflicts in ascending path order.
    pub fn list_conflicts(&self) -> (r: Vec<ConflictEntry>)
        requires
            self.wf(),
        ensures
            r@.len() == self.index.conflict_paths().len(),
            forall|i: int|
                0 <= i < r@.len() ==> {
                    let e = #[trigger] r@[i];
                    let p = self.index.conflict_paths()[i];
                    &&& e.path@ == p
                    &&& self.index.conflicts().dom().contains(p)
                    &&& e.local == (self.index.conflicts()[p].ours is Some)
                    &&& e.remote == (self.index.conflicts()[p].theirs is Some)
                    &&& e.base == (self.index.conflicts()[p].base is Some)
                },
    {
        self.index.list_conflicts()
    }

    /// Settles the conflict on `path` as the caller chose. `NotFoundError`,
    /// and no change, if the path is not conflicted.
    pub fn resolve_conflict(&mut self, path: &str, resolution: Resolution) -> (r: Result<
        (),
        SyncError,
    >)
        requires
            old(self).wf(),
        ensures
            final(self).wf(),
            r is Ok <==> old(self).index.conflicts().dom().contains(path@),
            r is Ok ==> final(self).index.conflicts() == old(self).index.conflicts().remove(path@)
                && final(self).index.staged() == with_content(
                old(self).index.staged(),
                path@,
                resolved_content(old(self).index.conflicts()[path@], resolution),
            ),
            r matches Err(e) ==> e == SyncError::NotFoundError && final(self).index.staged() == old(
                self,
            ).index.staged() && final(self).index.conflicts() == old(self).index.conflicts(),
            final(self).path == old(self).path,
            final(self).history == old(self).history,
            final(self).head == old(self).head,
            final(self).remote_head == old(self).remote_head,
            final(self).merge_head == old(self).merge_head,
    {
        self.index.resolve(path, resolution)
    }

    /// The parents of the next commit.
    fn parents_of_next(&self) -> (r: Vec<RevisionId>)
        requires
            self.wf(),
        ensures
            texts(r@) == next_parents(name_view(self.head), name_view(self.merge_head)),
    {
        let mut r: Vec<RevisionId> = Vec::new();
        match &self.head {
            None => {
                proof {
                    assert(texts(r@) =~= Seq::<Seq<char>>::empty());
                }
            },
            Some(h) => {
                r.push(h.clone());
                match &self.merge_head {
                    None => {
                        proof {
                            assert(texts(r@) =~= seq![h@]);
                        }
                    },
                    Some(m) => {
                        r.push(m.clone());
                        proof {
                            assert(texts(r@) =~= seq![h@, m@]);
                        }
                    },
                }
            },
        }
        r
    }

    /// Records the staged tree as a new revision named `id`, with the
    /// current head, and the remote head of a pending merge, as parents.
    ///
    /// Refused with `ConflictedIndexError` while the index is conflicted, and
    /// with `StorageError` if the history holds another content under `id`;
    /// nothing changes then. A revision that the history already holds with
    /// this very content is not added twice.
    pub fn record_commit(
        &mut self,
        id: RevisionId,
        message: &str,
        author: &Identity,
        timestamp: u64,
    ) -> (r: Result<RevisionId, SyncError>)
        requires
            old(self).wf(),
        ensures
            final(self).wf(),
            r matches Ok(name) ==> name@ == id@ && old(self).commit_outcome(
                old(self).next_revision(id@, message@, author.name@, author.email@, timestamp),
            ) is Ok && final(self).committed(
                old(self),
                old(self).next_revision(id@, message@, author.name@, author.email@, timestamp),
            ),
            r matches Err(e) ==> old(self).commit_outcome(
                old(self).next_revision(id@, message@, author.name@, author.email@, timestamp),
            ) == Err::<(), SyncError>(e) && *final(self) == *old(self),
    {
        if self.index.has_conflicts() {
            return Err(SyncError::ConflictedIndexError);
        }
        let rev = Revision {
            id: id.clone(),
            parents: self.parents_of_next(),
            tree: self.index.tree().duplicate(),
            message: owned_path(message),
            author: author.duplicate(),
            timestamp: timestamp,
        };
        let ghost rv = self.next_revision(id@, message@, author.name@, author.email@, timestamp);
        assert(rev@ == rv);
        let held = match self.history.get(id.as_str()) {
            Some(h) => Some(same_revision(h, &rev)),
            None => None,
        };
        match held {
            Some(false) => {
                return Err(SyncError::StorageError);
            },
            Some(true) => {},
            None => {
                let added = self.history.insert(rev);
                proof {
                    let revs = old(self).history@;
                    assert forall|k: int| 0 <= k < rv.parents.len() implies has_id(
                        revs,
                        #[trigger] rv.parents[k],
                    ) by {}
                    assert(added is Ok);
                    assert forall|x: Seq<char>| has_id(revs, x) implies has_id(self.history@, x) by {
                        let w = choose|w: int| 0 <= w < revs.len() && (#[trigger] revs[w]).id == x;
                        assert(self.history@[w].id == x);
                    }
                    assert(self.history@[revs.len() as int].id == id@);
                }
            },
        }
        self.head = Some(id.clone());
        self.merge_head = None;
        Ok(id)
    }

    /// Commits the staged tree. The new revision is named by the object
    /// name of its content; its parents are the current head and, after a
    /// merge, the remote head that was merged.
    ///
    /// Refused with `ConflictedIndexError` while the index is conflicted, and
    /// with `StorageError` where the content has no object name or the name
    /// is held by another content. Nothing changes on refusal. In every other
    /// case the commit succeeds.
    pub fn commit(&mut self, message: &str, author: &Identity, timestamp: u64) -> (r: Result<
        RevisionId,
        SyncError,
    >)
        requires
            old(self).wf(),
        ensures
            final(self).wf(),
            r matches Ok(id) ==> old(self).commit_result(
                message@,
                author.name@,
                author.email@,
                timestamp,
            ) == Ok::<Seq<char>, SyncError>(id@) && final(self).committed(
                old(self),
                old(self).next_revision(id@, message@, author.name@, author.email@, timestamp),
            ),
            r matches Err(e) ==> old(self).commit_result(
                message@,
                author.name@,
                author.email@,
                timestamp,
            ) == Err::<Seq<char>, SyncError>(e) && *final(self) == *old(self),
    {
        if self.index.has_conflicts() {
            return Err(SyncError::ConflictedIndexError);
        }
        let parents = self.parents_of_next();
        let data = encode_content(&parents, self.index.tree(), author, timestamp, message);
        match name_content(&data) {
            None => Err(SyncError::StorageError),
            Some(id) => {
                proof {
                    let rv = self.next_revision(
                        id@,
                        message@,
                        author.name@,
                        author.email@,
                        timestamp,
                    );
                    let unnamed = RevisionView {
                        id: Seq::empty(),
                        parents: rv.parents,
                        tree: rv.tree,
                        message: rv.message,
                        author_name: rv.author_name,
                        author_email: rv.author_email,
                        timestamp: rv.timestamp,
                    };
                    assert(content_bytes(rv) == content_bytes(unnamed));
                }
                self.record_commit(id, message, author, timestamp)
            },
        }
    }
}

} // verus!
