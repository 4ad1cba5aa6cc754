//! The orchestrator: `pull` and `push`, composed of fetch, analysis, merge
//! and commit.

use vstd::prelude::*;
use crate::ancestry::{analyze, classify, MergeClass};
use crate::error::SyncError;
use crate::history::{has_id, lemma_slot, lemma_slot_of_held, slot_of_id};
use crate::index::{ConflictEntry, WorkingIndex};
use crate::merge::{merge, merged_conflicts, merged_files, MergeOutcome};
use crate::merge_base::{lemma_merge_base_is_common_ancestor, merge_base_slot};
use crate::naming::{commit_object_name, content_bytes};
use crate::repository::{name_view, Repository};
use crate::revision::{Identity, RevisionId, RevisionView};
use crate::transport::{fetch, push, received, Remote};

verus! {

/// How a pull ended.
pub enum PullOutcome {
    /// The local history already held the remote head.
    UpToDate,
    /// The local reference moved forward to the remote head.
    FastForwarded(RevisionId),
    /// The histories had diverged and merged without conflict; the merge
    /// was committed under this name.
    Merged(RevisionId),
    /// The histories had diverged and the merge left these conflicts for
    /// the caller to resolve; nothing was committed.
    Conflicted(Vec<ConflictEntry>),
}

/// What a pull decides once the remote head is fetched.
#[derive(Clone, Copy, Debug, PartialEq, Eq, Structural)]
pub enum PullPlan {
    UpToDate,
    FastForward,
    Merge,
    Unrelated,
}

/// The decision of a pull, from the history after the fetch, the local
/// head and the remote head. A repository without a head takes the remote
/// head as it is.
pub open spec fn pull_plan(revs: Seq<RevisionView>, head: Option<Seq<char>>, tip: Seq<char>) -> PullPlan {
    match head {
        None => PullPlan::FastForward,
        Some(h) => match classify(revs, h, tip) {
            MergeClass::UpToDate => PullPlan::UpToDate,
            MergeClass::FastForward => PullPlan::FastForward,
            MergeClass::Divergent => if merge_base_slot(
                revs,
                slot_of_id(revs, h),
                slot_of_id(revs, tip),
            ) is Some {
                PullPlan::Merge
            } else {
                PullPlan::Unrelated
            },
        },
    }
}

/// The message of the revision that a merging pull commits.
pub open spec fn merge_message() -> Seq<char> {
    "Merge remote changes"@
}

/// The tree of the revision named `id`.
pub open spec fn tree_of(revs: Seq<RevisionView>, id: Seq<char>) -> Map<Seq<char>, Seq<u8>> {
    revs[slot_of_id(revs, id)].tree
}

/// The tree of the merge base of two heads.
pub open spec fn base_tree(revs: Seq<RevisionView>, local: Seq<char>, remote: Seq<char>) -> Map<
    Seq<char>,
    Seq<u8>,
> {
    revs[merge_base_slot(revs, slot_of_id(revs, local), slot_of_id(revs, remote))->Some_0].tree
}

/// The files that merging two heads settles.
pub open spec fn pulled_files(revs: Seq<RevisionView>, local: Seq<char>, remote: Seq<char>) -> Map<
    Seq<char>,
    Seq<u8>,
> {
    merged_files(base_tree(revs, local, remote), tree_of(revs, local), tree_of(revs, remote))
}

/// The conflicts that merging two heads leaves.
pub open spec fn pulled_conflicts(
    revs: Seq<RevisionView>,
    local: Seq<char>,
    remote: Seq<char>,
) -> Map<Seq<char>, crate::index::SidesView> {
    merged_conflicts(base_tree(revs, local, remote), tree_of(revs, local), tree_of(revs, remote))
}

/// The revision that a merging pull commits under the name `id`.
pub open spec fn merge_revision(
    revs: Seq<RevisionView>,
    local: Seq<char>,
    remote: Seq<char>,
    id: Seq<char>,
    author_name: Seq<char>,
    author_email: Seq<char>,
    timestamp: u64,
) -> RevisionView {
    RevisionView {
        id: id,
        parents: seq![local, remote],
        tree: pulled_files(revs, local, remote),
        message: merge_message(),
        author_name: author_name,
        author_email: author_email,
        timestamp: timestamp,
    }
}

/// The name under which a merging pull commits its merge revision, where
/// the commit is not refused: the object name of the content of the merge
/// revision, unless the content has none or the history holds another
/// content under it.
pub open spec fn merge_commit_name(
    revs: Seq<RevisionView>,
    local: Seq<char>,
    remote: Seq<char>,
    author_name: Seq<char>,
    author_email: Seq<char>,
    timestamp: u64,
) -> Option<Seq<char>> {
    match commit_object_name(
        content_bytes(
            merge_revision(revs, local, remote, Seq::empty(), author_name, author_email, timestamp),
        ),
    ) {
        None => None,
        Some(id) => if has_id(revs, id) && revs[slot_of_id(revs, id)] != merge_revision(
            revs,
            local,
            remote,
            id,
            author_name,
            author_email,
            timestamp,
        ) {
            None
        } else {
            Some(id)
        },
    }
}

/// What a pull does, from the repository before and after it and from its
/// answer `r`.
///
/// Where the remote has no branch the pull fails with `NotFoundError` and
/// changes nothing. Otherwise the remote-tracking reference points to the
/// remote tip, the history holds what the fetch brought, and the rest is
/// decided by the plan of the pull.
pub open spec fn pull_effect(
    before: &Repository,
    after: &Repository,
    remote: &Remote,
    author_name: Seq<char>,
    author_email: Seq<char>,
    timestamp: u64,
    r: Result<PullOutcome, SyncError>,
) -> bool {
    &&& after.path@ == before.path@
    &&& remote.tip is None ==> (r matches Err(e) && e == SyncError::NotFoundError) && *after
        == *before
    &&& remote.tip matches Some(tip) ==> {
        let t = tip@;
        let revs = received(
            before.history@,
            remote.history@,
            slot_of_id(remote.history@, t),
        );
        let head = name_view(before.head);
        let plan = pull_plan(revs, head, t);
        &&& name_view(after.remote_head) == Some(t)
        &&& match r {
            Ok(PullOutcome::UpToDate) => {
                &&& plan == PullPlan::UpToDate
                &&& after.history@ == revs
                &&& after.head == before.head
                &&& after.merge_head == before.merge_head
                &&& after.index == before.index
            },
            Ok(PullOutcome::FastForwarded(id)) => {
                &&& plan == PullPlan::FastForward
                &&& id@ == t
                &&& after.history@ == revs
                &&& name_view(after.head) == Some(t)
                &&& after.merge_head is None
                &&& after.index.staged() == tree_of(revs, t)
                &&& !after.index.conflicted()
            },
            Ok(PullOutcome::Conflicted(list)) => {
                &&& plan == PullPlan::Merge
                &&& after.history@ == revs
                &&& after.head == before.head
                &&& name_view(after.merge_head) == Some(t)
                &&& after.index.staged() == pulled_files(revs, head->Some_0, t)
                &&& after.index.conflicts() == pulled_conflicts(revs, head->Some_0, t)
                &&& exists|p: Seq<char>| pulled_conflicts(revs, head->Some_0, t).dom().contains(p)
                &&& after.index.conflicted()
                &&& list@.len() == after.index.conflict_paths().len()
                &&& forall|i: int|
                    0 <= i < list@.len() ==> {
                        let e = #[trigger] list@[i];
                        let p = after.index.conflict_paths()[i];
                        &&& e.path@ == p
                        &&& after.index.conflicts().dom().contains(p)
                        &&& e.local == (after.index.conflicts()[p].ours is Some)
                        &&& e.remote == (after.index.conflicts()[p].theirs is Some)
                        &&& e.base == (after.index.conflicts()[p].base is Some)
                    }
            },
            Ok(PullOutcome::Merged(id)) => {
                let rv = merge_revision(revs, head->Some_0, t, id@, author_name, author_email, timestamp);
                &&& plan == PullPlan::Merge
                &&& pulled_conflicts(revs, head->Some_0, t) =~= Map::empty()
                &&& merge_commit_name(revs, head->Some_0, t, author_name, author_email, timestamp)
                    == Some(id@)
                &&& name_view(after.head) == Some(id@)
                &&& after.merge_head is None
                &&& after.index.staged() == rv.tree
                &&& !after.index.conflicted()
                &&& if has_id(revs, id@) {
                    after.history@ == revs && revs[slot_of_id(revs, id@)] == rv
                } else {
                    after.history@ == revs.push(rv)
                }
            },
            Err(e) => {
                &&& after.history@ == revs
                &&& after.head == before.head
                &&& after.merge_head == before.merge_head
                &&& after.index == before.index
                &&& e == SyncError::MergeBaseNotFoundError || e == SyncError::StorageError
                &&& e == SyncError::MergeBaseNotFoundError <==> plan == PullPlan::Unrelated
                &&& e == SyncError::StorageError <==> plan == PullPlan::Merge && pulled_conflicts(
                    revs,
                    head->Some_0,
                    t,
                ) =~= Map::empty() && merge_commit_name(
                    revs,
                    head->Some_0,
                    t,
                    author_name,
                    author_email,
                    timestamp,
                ) is None
            },
        }
    }
}

/// Moves the local reference to `tip` and resets the index to its tree.
fn fast_forward(repo: &mut Repository, tip: &RevisionId)
    requires
        old(repo).wf(),
        has_id(old(repo).history@, tip@),
    ensures
        final(repo).wf(),
        final(repo).path == old(repo).path,
        final(repo).history == old(repo).history,
        final(repo).remote_head == old(repo).remote_head,
        name_view(final(repo).head) == Some(tip@),
        final(repo).merge_head is None,
        final(repo).index.staged() == tree_of(old(repo).history@, tip@),
        final(repo).index.conflicts() == Map::<Seq<char>, crate::index::SidesView>::empty(),
        !final(repo).index.conflicted(),
{
    match repo.history.get(tip.as_str()) {
        Some(rev) => {
            repo.index = WorkingIndex::from_tree(&rev.tree);
        },
        None => {},
    }
    repo.head = Some(tip.clone());
    repo.merge_head = None;
}

/// Brings the local repository up to the remote.
///
/// The remote head is fetched, then the relation of the local head to it
/// decides: nothing is done where the local history already holds it; the
/// local reference moves forward, and the index is reset to the remote
/// tree, where the local head is an ancestor of it (or there is no local
/// head yet); and where the histories have diverged the two heads are
/// merged. A merge without conflicts is committed at once, with both heads
/// as parents. A merge with conflicts is left in the index, with the remote
/// head recorded as pending, and the conflicts are reported.
///
/// `NotFoundError` where the remote has no branch; `MergeBaseNotFoundError`
/// where the histories have nothing in common; `StorageError` where a merge
/// without conflicts cannot be committed, because its content has no object
/// name or the name is held by another content. In every other case the
/// pull succeeds. After a failure the references and the index are as
/// before; only what the fetch brought stays.
pub fn pull(repo: &mut Repository, remote: &Remote, author: &Identity, timestamp: u64) -> (r: Result<
    PullOutcome,
    SyncError,
>)
    requires
        old(repo).wf(),
        remote.wf(),
    ensures
        final(repo).wf(),
        pull_effect(old(repo), final(repo), remote, author.name@, author.email@, timestamp, r),
{
    let tip = match fetch(repo, remote) {
        Ok(t) => t,
        Err(e) => {
            return Err(e);
        },
    };
    let ghost revs = repo.history@;
    let head = match &repo.head {
        Some(h) => h.clone(),
        None => {
            fast_forward(repo, &tip);
            return Ok(PullOutcome::FastForwarded(tip));
        },
    };
    let class = match analyze(&repo.history, head.as_str(), tip.as_str()) {
        Ok(c) => c,
        Err(e) => {
            return Err(e);
        },
    };
    match class {
        MergeClass::UpToDate => Ok(PullOutcome::UpToDate),
        MergeClass::FastForward => {
            fast_forward(repo, &tip);
            Ok(PullOutcome::FastForwarded(tip))
        },
        MergeClass::Divergent => {
            let out = match merge(&repo.history, head.as_str(), tip.as_str()) {
                Ok(o) => o,
                Err(e) => {
                    return Err(e);
                },
            };
            let MergeOutcome { base, index, conflicted_paths } = out;
            proof {
                repo.history.lemma_wf();
                lemma_slot_of_held(revs, head@);
                lemma_slot_of_held(revs, tip@);
                lemma_merge_base_is_common_ancestor(
                    revs,
                    slot_of_id(revs, head@),
                    slot_of_id(revs, tip@),
                );
                lemma_slot(
                    revs,
                    merge_base_slot(revs, slot_of_id(revs, head@), slot_of_id(revs, tip@))->Some_0,
                );
                index.lemma_conflict_paths();
            }
            if index.has_conflicts() {
                proof {
                    let p = choose|p: Seq<char>| index.conflicts().dom().contains(p);
                    assert(pulled_conflicts(revs, head@, tip@).dom().contains(p));
                }
                let list = index.list_conflicts();
                repo.index = index;
                repo.merge_head = Some(tip);
                Ok(PullOutcome::Conflicted(list))
            } else {
                let mut merged = index;
                let mut pending: Option<RevisionId> = Some(tip);
                core::mem::swap(&mut repo.index, &mut merged);
                core::mem::swap(&mut repo.merge_head, &mut pending);
                proof {
                    assert(repo.index.conflicts() =~= Map::empty()) by {
                        repo.index.lemma_conflict_paths();
                    }
                }
                match repo.commit("Merge remote changes", author, timestamp) {
                    Ok(id) => Ok(PullOutcome::Merged(id)),
                    Err(_) => {
                        core::mem::swap(&mut repo.index, &mut merged);
                        core::mem::swap(&mut repo.merge_head, &mut pending);
                        Err(SyncError::StorageError)
                    },
                }
            }
        },
    }
}

/// What `push_changes` answers: `EmptyRepositoryError` where nothing was
/// ever committed, `NonFastForwardError` where the remote tip is not the
/// local head or an ancestor of it in the history after a fresh fetch.
pub open spec fn push_decision(
    revs: Seq<RevisionView>,
    head: Option<Seq<char>>,
    tip: Option<Seq<char>>,
) -> Result<(), SyncError> {
    match head {
        None => Err(SyncError::EmptyRepositoryError),
        Some(h) => match tip {
            None => Ok(()),
            Some(t) => if classify(revs, h, t) == MergeClass::UpToDate {
                Ok(())
            } else {
                Err(SyncError::NonFastForwardError)
            },
        },
    }
}

/// The local history after a fetch from a remote whose tip is `tip`.
pub open spec fn after_fetch(
    local: Seq<RevisionView>,
    remote: Seq<RevisionView>,
    tip: Option<Seq<char>>,
) -> Seq<RevisionView> {
    match tip {
        Some(t) => received(local, remote, slot_of_id(remote, t)),
        None => local,
    }
}

/// What a push does, from the repository and the remote before and
/// after it and from its answer `r`.
///
/// The answer is the decision of the push. The local head, the pending
/// merge, the index and the path are never touched: a push does not
/// commit, merge or reset. A repository without a head is left wholly as it
/// was. Otherwise the local history is what the fresh fetch made of it and
/// the remote-tracking reference follows the remote: to the local head
/// after a success, to the remote tip after a refusal. The remote is
/// untouched by a refusal; after a success it holds what leads to the local
/// head and its branch points there.
pub open spec fn push_effect(
    before: &Repository,
    after: &Repository,
    remote_before: &Remote,
    remote_after: &Remote,
    r: Result<(), SyncError>,
) -> bool {
    let tip = name_view(remote_before.tip);
    let head = name_view(before.head);
    let revs = after_fetch(before.history@, remote_before.history@, tip);
    &&& r == push_decision(revs, head, tip)
    &&& after.path == before.path
    &&& after.head == before.head
    &&& after.merge_head == before.merge_head
    &&& after.index == before.index
    &&& head is None ==> *after == *before
    &&& head is Some ==> after.history@ == revs && name_view(after.remote_head) == (if r is Ok {
        head
    } else {
        tip
    })
    &&& r is Err ==> *remote_after == *remote_before
    &&& r is Ok ==> name_view(remote_after.tip) == head && remote_after.history@ == received(
        remote_before.history@,
        revs,
        slot_of_id(revs, head->Some_0),
    )
}

/// Publishes the local head on the remote.
///
/// The remote is fetched afresh and the local head is held against its
/// tip. Where the local history holds the remote tip at or below the local
/// head, the remote receives the revisions it lacks and its branch advances
/// to the local head. Otherwise the push fails with `NonFastForwardError`
/// and the remote is untouched: the caller pulls first. A push never
/// merges.
pub fn push_changes(repo: &mut Repository, remote: &mut Remote) -> (r: Result<(), SyncError>)
    requires
        old(repo).wf(),
        old(remote).wf(),
    ensures
        final(repo).wf(),
        final(remote).wf(),
        push_effect(old(repo), final(repo), old(remote), final(remote), r),
{
    let head = match repo.current_head() {
        Ok(h) => h,
        Err(e) => {
            return Err(e);
        },
    };
    if remote.tip.is_some() {
        let tip = match fetch(repo, remote) {
            Ok(t) => t,
            Err(e) => {
                return Err(SyncError::NonFastForwardError);
            },
        };
        match analyze(&repo.history, head.as_str(), tip.as_str()) {
            Ok(MergeClass::UpToDate) => {},
            _ => {
                return Err(SyncError::NonFastForwardError);
            },
        }
    }
    match push(repo, remote, head.as_str()) {
        Ok(()) => {
            repo.remote_head = Some(head);
            Ok(())
        },
        Err(e) => Err(e),
    }
}

} // verus!
