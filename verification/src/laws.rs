//! What holds of the engine as a whole.

use vstd::prelude::*;
use crate::ancestry::{analyze_outcome, classify, MergeClass};
use crate::error::SyncError;
use crate::history::{
    has_id, is_ancestor, lemma_reaches_extended, lemma_reaches_order, lemma_slot,
    lemma_slot_of_held, parent_slot, reaches, slot_of_id, well_formed,
};
use crate::index::{SidesView, WorkingIndex};
use crate::merge::{content_in, merged_conflicts, merged_files};
use crate::naming::{commit_object_name, content_bytes};
use crate::path::lemma_path_lt_asymmetric;
use crate::repository::{name_view, Repository};
use crate::revision::RevisionView;
use crate::sync::{
    merge_commit_name, merge_message, merge_revision, pull_effect, pull_plan, pulled_conflicts,
    pulled_files, tree_of, PullOutcome, PullPlan,
};
use crate::transport::{
    lemma_missing_members, lemma_nothing_missing_after_transfer, missing, received, Remote,
};

verus! {

/// A head analysed against itself is up to date.
pub proof fn lemma_analyze_reflexive(revs: Seq<RevisionView>, x: Seq<char>)
    requires
        has_id(revs, x),
    ensures
        analyze_outcome(revs, x, x) == Ok::<MergeClass, SyncError>(MergeClass::UpToDate),
{
}

/// Where the local head is a proper ancestor of the remote head, the
/// analysis says fast-forward and a pull plans to move the reference, not to
/// merge.
pub proof fn lemma_ancestor_fast_forwards(revs: Seq<RevisionView>, a: Seq<char>, b: Seq<char>)
    requires
        well_formed(revs),
        is_ancestor(revs, a, b),
        a != b,
    ensures
        analyze_outcome(revs, a, b) == Ok::<MergeClass, SyncError>(MergeClass::FastForward),
        pull_plan(revs, Some(a), b) == PullPlan::FastForward,
{
    let x = slot_of_id(revs, a);
    let y = slot_of_id(revs, b);
    lemma_slot_of_held(revs, a);
    lemma_slot_of_held(revs, b);
    lemma_reaches_order(revs, x, y);
    if reaches(revs, y, x) {
        lemma_reaches_order(revs, y, x);
    }
}

/// The three classes exclude each other and are decided by ancestry alone:
/// up to date exactly where the remote head is the local head or an ancestor
/// of it, fast-forward exactly where the local head is a proper ancestor of
/// the remote head, divergent exactly where neither leads to the other.
pub proof fn lemma_classes(revs: Seq<RevisionView>, local: Seq<char>, remote: Seq<char>)
    requires
        well_formed(revs),
        has_id(revs, local),
        has_id(revs, remote),
    ensures
        classify(revs, local, remote) == MergeClass::UpToDate <==> is_ancestor(revs, remote, local),
        classify(revs, local, remote) == MergeClass::FastForward <==> is_ancestor(
            revs,
            local,
            remote,
        ) && local != remote,
        classify(revs, local, remote) == MergeClass::Divergent <==> !is_ancestor(
            revs,
            local,
            remote,
        ) && !is_ancestor(revs, remote, local),
{
    let x = slot_of_id(revs, local);
    let y = slot_of_id(revs, remote);
    lemma_slot_of_held(revs, local);
    lemma_slot_of_held(revs, remote);
    if reaches(revs, x, y) && reaches(revs, y, x) {
        lemma_reaches_order(revs, x, y);
        lemma_reaches_order(revs, y, x);
    }
}

/// A side changed the path `p` with respect to the base.
pub open spec fn changed(base: Map<Seq<char>, Seq<u8>>, side: Map<Seq<char>, Seq<u8>>, p: Seq<char>) -> bool {
    content_in(base, p) != content_in(side, p)
}

/// Where no path was changed on both sides, the merge leaves no conflict
/// and its result holds the changes of both sides: a path changed on one
/// side has that side's version, and a path changed on neither has the
/// base's.
pub proof fn lemma_disjoint_changes_merge_cleanly(
    base: Map<Seq<char>, Seq<u8>>,
    ours: Map<Seq<char>, Seq<u8>>,
    theirs: Map<Seq<char>, Seq<u8>>,
)
    requires
        forall|p: Seq<char>| !(changed(base, ours, p) && changed(base, theirs, p)),
    ensures
        merged_conflicts(base, ours, theirs) == Map::<Seq<char>, SidesView>::empty(),
        forall|p: Seq<char>|
            changed(base, ours, p) ==> content_in(merged_files(base, ours, theirs), p)
                == content_in(ours, p),
        forall|p: Seq<char>|
            changed(base, theirs, p) ==> content_in(merged_files(base, ours, theirs), p)
                == content_in(theirs, p),
        forall|p: Seq<char>|
            !changed(base, ours, p) && !changed(base, theirs, p) ==> content_in(
                merged_files(base, ours, theirs),
                p,
            ) == content_in(base, p),
{
    assert forall|p: Seq<char>| !merged_conflicts(base, ours, theirs).dom().contains(p) by {
        assert(!(changed(base, ours, p) && changed(base, theirs, p)));
    }
    assert(merged_conflicts(base, ours, theirs) =~= Map::<Seq<char>, SidesView>::empty());
    assert forall|p: Seq<char>|
        changed(base, ours, p) implies content_in(merged_files(base, ours, theirs), p)
            == content_in(ours, p) by {
        assert(!(changed(base, ours, p) && changed(base, theirs, p)));
    }
    assert forall|p: Seq<char>|
        changed(base, theirs, p) implies content_in(merged_files(base, ours, theirs), p)
            == content_in(theirs, p) by {
        assert(!(changed(base, ours, p) && changed(base, theirs, p)));
    }
}

/// A path that both sides changed, to different results, is conflicted,
/// with its three versions kept, and is not among the merged files.
pub proof fn lemma_competing_changes_conflict(
    base: Map<Seq<char>, Seq<u8>>,
    ours: Map<Seq<char>, Seq<u8>>,
    theirs: Map<Seq<char>, Seq<u8>>,
    p: Seq<char>,
)
    requires
        changed(base, ours, p),
        changed(base, theirs, p),
        content_in(ours, p) != content_in(theirs, p),
    ensures
        merged_conflicts(base, ours, theirs).dom().contains(p),
        merged_conflicts(base, ours, theirs)[p] == (SidesView {
            base: content_in(base, p),
            ours: content_in(ours, p),
            theirs: content_in(theirs, p),
        }),
        !merged_files(base, ours, theirs).dom().contains(p),
{
}

/// A path is conflicted exactly where both sides changed it to different
/// results.
pub proof fn lemma_conflict_iff_competing_changes(
    base: Map<Seq<char>, Seq<u8>>,
    ours: Map<Seq<char>, Seq<u8>>,
    theirs: Map<Seq<char>, Seq<u8>>,
    p: Seq<char>,
)
    ensures
        merged_conflicts(base, ours, theirs).dom().contains(p) <==> changed(base, ours, p)
            && changed(base, theirs, p) && content_in(ours, p) != content_in(theirs, p),
{
}

/// The merge does not depend on which side is called ours: with the sides
/// exchanged it settles the same files and leaves the same paths
/// conflicted.
pub proof fn lemma_merge_is_symmetric(
    base: Map<Seq<char>, Seq<u8>>,
    ours: Map<Seq<char>, Seq<u8>>,
    theirs: Map<Seq<char>, Seq<u8>>,
)
    ensures
        merged_files(base, ours, theirs) == merged_files(base, theirs, ours),
        merged_conflicts(base, ours, theirs).dom() == merged_conflicts(base, theirs, ours).dom(),
{
    assert(merged_files(base, ours, theirs) =~= merged_files(base, theirs, ours));
    assert(merged_conflicts(base, ours, theirs).dom() =~= merged_conflicts(
        base,
        theirs,
        ours,
    ).dom());
}

/// Where one side is the base itself, the merge is the other side, without
/// conflict: merging agrees with fast-forwarding.
pub proof fn lemma_merge_with_unchanged_side(
    base: Map<Seq<char>, Seq<u8>>,
    theirs: Map<Seq<char>, Seq<u8>>,
)
    ensures
        merged_files(base, base, theirs) == theirs,
        merged_conflicts(base, base, theirs) == Map::<Seq<char>, SidesView>::empty(),
{
    assert(merged_files(base, base, theirs) =~= theirs);
    assert(merged_conflicts(base, base, theirs) =~= Map::<Seq<char>, SidesView>::empty());
}

/// A conflict report has exactly one row for each conflicted path, and the
/// index counts as conflicted exactly as long as a conflicted path is left.
pub proof fn lemma_one_row_per_conflict(index: &WorkingIndex, i: int, j: int)
    requires
        index.wf(),
        0 <= i < index.conflict_paths().len(),
        0 <= j < index.conflict_paths().len(),
        index.conflict_paths()[i] == index.conflict_paths()[j],
    ensures
        i == j,
        index.conflicts().dom().contains(index.conflict_paths()[i]),
        index.conflicted() <==> exists|p: Seq<char>| index.conflicts().dom().contains(p),
{
    index.lemma_conflict_paths();
    let ps = index.conflict_paths();
    if i < j {
        lemma_path_lt_asymmetric(ps[i], ps[j]);
    }
    if j < i {
        lemma_path_lt_asymmetric(ps[j], ps[i]);
    }
    assert(ps.to_set().contains(ps[i]));
}

/// Receiving creates no revision: every revision that a history holds
/// after a fetch or a push is one that it held before or one that the other
/// side holds.
pub proof fn lemma_received_creates_nothing(
    target: Seq<RevisionView>,
    source: Seq<RevisionView>,
    tip: int,
    i: int,
)
    requires
        0 <= i < received(target, source, tip).len(),
    ensures
        (i < target.len() && received(target, source, tip)[i] == target[i]) || exists|j: int|
            0 <= j < source.len() && source[j] == #[trigger] received(target, source, tip)[i],
{
    if i >= target.len() {
        lemma_missing_members(target, source, tip, source.len() as int, i - target.len());
        let j = choose|j: int|
            0 <= j < source.len() && source[j] == missing(
                target,
                source,
                tip,
                source.len() as int,
            )[i - target.len()] && reaches(source, j, tip) && !has_id(target, source[j].id);
        assert(source[j] == received(target, source, tip)[i]);
    }
}

/// Two histories agree: a name that both hold names the same revision in
/// both.
pub open spec fn agree(a: Seq<RevisionView>, b: Seq<RevisionView>) -> bool {
    forall|i: int, j: int|
        0 <= i < a.len() && 0 <= j < b.len() && (#[trigger] a[i]).id == (#[trigger] b[j]).id
            ==> a[i] == b[j]
}

/// A history that holds a revision of another history with which it agrees
/// holds every ancestor of that revision too.
proof fn lemma_held_below(
    local: Seq<RevisionView>,
    remote: Seq<RevisionView>,
    a: int,
    x: int,
)
    requires
        well_formed(local),
        well_formed(remote),
        agree(local, remote),
        0 <= x < remote.len(),
        has_id(local, remote[x].id),
        reaches(remote, a, x),
    ensures
        0 <= a < remote.len(),
        has_id(local, remote[a].id),
    decreases x,
{
    if a != x {
        let k = choose|k: int|
            0 <= k < remote[x].parents.len() && 0 <= #[trigger] parent_slot(remote, x, k) < x
                && reaches(remote, a, parent_slot(remote, x, k));
        let p = parent_slot(remote, x, k);
        let i = slot_of_id(local, remote[x].id);
        lemma_slot_of_held(local, remote[x].id);
        assert(local[i] == remote[x]);
        let q = parent_slot(local, i, k);
        assert(local[q].id == local[i].parents[k]);
        assert(remote[p].id == remote[x].parents[k]);
        assert(has_id(local, remote[p].id));
        lemma_held_below(local, remote, a, p);
    }
}

/// A fetch whose remote tip the local history already holds writes
/// nothing: the history after it is the history before it.
pub proof fn lemma_fetch_of_held_tip_writes_nothing(
    local: Seq<RevisionView>,
    remote: Seq<RevisionView>,
    tip: int,
)
    requires
        well_formed(local),
        well_formed(remote),
        agree(local, remote),
        0 <= tip < remote.len(),
        has_id(local, remote[tip].id),
    ensures
        received(local, remote, tip) == local,
{
    lemma_nothing_missing_below_held_tip(local, remote, tip, remote.len() as int);
    assert(missing(local, remote, tip, remote.len() as int) =~= Seq::<RevisionView>::empty());
    assert(local + Seq::<RevisionView>::empty() =~= local);
}

/// Where the tip is held, none of the first `n` revisions is missing.
proof fn lemma_nothing_missing_below_held_tip(
    local: Seq<RevisionView>,
    remote: Seq<RevisionView>,
    tip: int,
    n: int,
)
    requires
        well_formed(local),
        well_formed(remote),
        agree(local, remote),
        0 <= tip < remote.len(),
        has_id(local, remote[tip].id),
        0 <= n <= remote.len(),
    ensures
        missing(local, remote, tip, n).len() == 0,
    decreases n,
{
    if n > 0 {
        lemma_nothing_missing_below_held_tip(local, remote, tip, n - 1);
        if reaches(remote, n - 1, tip) {
            lemma_held_below(local, remote, n - 1, tip);
        }
    }
}

/// A second fetch from an unchanged remote writes nothing: the history
/// after two fetches is the history after one.
pub proof fn lemma_fetch_idempotent(local: Seq<RevisionView>, remote: Seq<RevisionView>, tip: int)
    ensures
        received(received(local, remote, tip), remote, tip) == received(local, remote, tip),
{
    lemma_nothing_missing_after_transfer(local, remote, tip, remote.len() as int);
    let once = received(local, remote, tip);
    assert(missing(once, remote, tip, remote.len() as int) =~= Seq::<RevisionView>::empty());
    assert(once + Seq::<RevisionView>::empty() =~= once);
}

/// The name of a revision is a function of its content: two revisions with
/// the same tree, parents, author, time and message get the same name, or
/// neither gets one.
pub proof fn lemma_same_content_same_name(a: RevisionView, b: RevisionView)
    requires
        a.tree == b.tree,
        a.parents == b.parents,
        a.author_name == b.author_name,
        a.author_email == b.author_email,
        a.timestamp == b.timestamp,
        a.message == b.message,
    ensures
        commit_object_name(content_bytes(a)) == commit_object_name(content_bytes(b)),
{
}

/// A commit with nothing staged beyond the tree of the head is permitted:
/// it succeeds like any other commit, and records a revision whose tree is
/// the tree of its parent.
pub proof fn lemma_unchanged_commit_keeps_tree(
    repo: &Repository,
    message: Seq<char>,
    author_name: Seq<char>,
    author_email: Seq<char>,
    timestamp: u64,
)
    requires
        repo.wf(),
        repo.head is Some,
        repo.merge_head is None,
        !repo.index.conflicted(),
        repo.index.staged() == tree_of(repo.history@, name_view(repo.head)->Some_0),
        repo.next_name(message, author_name, author_email, timestamp) matches Some(id) && !has_id(
            repo.history@,
            id,
        ),
    ensures
        ({
            let id = repo.next_name(message, author_name, author_email, timestamp)->Some_0;
            let rv = repo.next_revision(id, message, author_name, author_email, timestamp);
            &&& repo.commit_result(message, author_name, author_email, timestamp) == Ok::<
                Seq<char>,
                SyncError,
            >(id)
            &&& rv.parents == seq![name_view(repo.head)->Some_0]
            &&& rv.tree == tree_of(repo.history@, rv.parents[0])
        }),
{
}

/// A commit that concludes a merge has two parents: the local head and the
/// remote head that was merged, in this order.
pub proof fn lemma_merge_commit_has_two_parents(
    repo: &Repository,
    id: Seq<char>,
    message: Seq<char>,
    author_name: Seq<char>,
    author_email: Seq<char>,
    timestamp: u64,
)
    requires
        repo.wf(),
        repo.merge_head is Some,
    ensures
        repo.head is Some,
        repo.next_revision(id, message, author_name, author_email, timestamp).parents == seq![
            name_view(repo.head)->Some_0,
            name_view(repo.merge_head)->Some_0,
        ],
{
}

/// A commit records a revision with at most two parents.
pub proof fn lemma_commit_has_at_most_two_parents(
    repo: &Repository,
    id: Seq<char>,
    message: Seq<char>,
    author_name: Seq<char>,
    author_email: Seq<char>,
    timestamp: u64,
)
    ensures
        repo.next_revision(id, message, author_name, author_email, timestamp).parents.len() <= 2,
{
}

/// A commit on an index without conflicts succeeds whenever the content of
/// the new revision has an object name that the history does not hold yet.
pub proof fn lemma_commit_succeeds_when_named(
    repo: &Repository,
    message: Seq<char>,
    author_name: Seq<char>,
    author_email: Seq<char>,
    timestamp: u64,
)
    requires
        !repo.index.conflicted(),
        repo.next_name(message, author_name, author_email, timestamp) matches Some(id) && !has_id(
            repo.history@,
            id,
        ),
    ensures
        repo.commit_result(message, author_name, author_email, timestamp) == Ok::<
            Seq<char>,
            SyncError,
        >(repo.next_name(message, author_name, author_email, timestamp)->Some_0),
{
}

/// A pull of diverged heads whose merge leaves no conflict commits the
/// merge, whenever the merge revision can be named: the pull succeeds, the
/// local head is the new revision, its parents are the local head and the
/// remote head, in this order, its tree holds the merged files, and its
/// message is the fixed one.
pub proof fn lemma_clean_merge_is_committed(
    before: &Repository,
    after: &Repository,
    remote: &Remote,
    author_name: Seq<char>,
    author_email: Seq<char>,
    timestamp: u64,
    r: Result<PullOutcome, SyncError>,
)
    requires
        pull_effect(before, after, remote, author_name, author_email, timestamp, r),
        remote.tip is Some,
        before.head is Some,
        ({
            let t = name_view(remote.tip)->Some_0;
            let h = name_view(before.head)->Some_0;
            let revs = received(before.history@, remote.history@, slot_of_id(remote.history@, t));
            &&& pull_plan(revs, Some(h), t) == PullPlan::Merge
            &&& pulled_conflicts(revs, h, t) =~= Map::empty()
            &&& merge_commit_name(revs, h, t, author_name, author_email, timestamp) is Some
        }),
    ensures
        ({
            let t = name_view(remote.tip)->Some_0;
            let h = name_view(before.head)->Some_0;
            let revs = received(before.history@, remote.history@, slot_of_id(remote.history@, t));
            let id = merge_commit_name(revs, h, t, author_name, author_email, timestamp)->Some_0;
            let rv = merge_revision(revs, h, t, id, author_name, author_email, timestamp);
            &&& r matches Ok(PullOutcome::Merged(name)) && name@ == id
            &&& name_view(after.head) == Some(id)
            &&& has_id(after.history@, id)
            &&& after.history@[slot_of_id(after.history@, id)] == rv
            &&& rv.parents == seq![h, t]
            &&& rv.tree == pulled_files(revs, h, t)
            &&& rv.message == merge_message()
            &&& after.index.staged() == rv.tree
            &&& !after.index.conflicted()
        }),
{
    let t = name_view(remote.tip)->Some_0;
    let h = name_view(before.head)->Some_0;
    let revs = received(before.history@, remote.history@, slot_of_id(remote.history@, t));
    let id = merge_commit_name(revs, h, t, author_name, author_email, timestamp)->Some_0;
    let rv = merge_revision(revs, h, t, id, author_name, author_email, timestamp);
    if has_id(revs, id) {
        lemma_slot_of_held(revs, id);
    } else {
        let all = revs.push(rv);
        assert(all[revs.len() as int].id == id);
        assert(has_id(all, id));
        lemma_slot_of_held(all, id);
        let s = slot_of_id(all, id);
        if s < revs.len() {
            assert(revs[s].id == id);
        }
    }
}

/// A pull whose local head is a proper ancestor of the remote head moves
/// the local reference to the remote head and creates no revision: the
/// history holds what the fetch brought and nothing more.
pub proof fn lemma_fast_forward_pull_commits_nothing(
    before: &Repository,
    after: &Repository,
    remote: &Remote,
    author_name: Seq<char>,
    author_email: Seq<char>,
    timestamp: u64,
    r: Result<PullOutcome, SyncError>,
)
    requires
        pull_effect(before, after, remote, author_name, author_email, timestamp, r),
        remote.tip is Some,
        before.head is Some,
        ({
            let t = name_view(remote.tip)->Some_0;
            let h = name_view(before.head)->Some_0;
            let revs = received(before.history@, remote.history@, slot_of_id(remote.history@, t));
            well_formed(revs) && is_ancestor(revs, h, t) && h != t
        }),
    ensures
        ({
            let t = name_view(remote.tip)->Some_0;
            let revs = received(before.history@, remote.history@, slot_of_id(remote.history@, t));
            &&& r matches Ok(PullOutcome::FastForwarded(id)) && id@ == t
            &&& after.history@ == revs
            &&& name_view(after.head) == Some(t)
        }),
{
    let t = name_view(remote.tip)->Some_0;
    let h = name_view(before.head)->Some_0;
    let revs = received(before.history@, remote.history@, slot_of_id(remote.history@, t));
    lemma_ancestor_fast_forwards(revs, h, t);
}

/// Revisions that a history receives change nothing about the revisions it
/// held: they keep their ancestors, and two held heads stand to each other
/// as before.
pub proof fn lemma_growth_preserves_classes(
    old_revs: Seq<RevisionView>,
    new_revs: Seq<RevisionView>,
    a: Seq<char>,
    b: Seq<char>,
)
    requires
        well_formed(old_revs),
        well_formed(new_revs),
        old_revs.len() <= new_revs.len(),
        forall|i: int| 0 <= i < old_revs.len() ==> old_revs[i] == new_revs[i],
        has_id(old_revs, a),
        has_id(old_revs, b),
    ensures
        is_ancestor(new_revs, a, b) == is_ancestor(old_revs, a, b),
        classify(new_revs, a, b) == classify(old_revs, a, b),
{
    let x = slot_of_id(old_revs, a);
    let y = slot_of_id(old_revs, b);
    lemma_slot_of_held(old_revs, a);
    lemma_slot_of_held(old_revs, b);
    assert(new_revs[x].id == a);
    assert(new_revs[y].id == b);
    lemma_slot(new_revs, x);
    lemma_slot(new_revs, y);
    lemma_reaches_extended(old_revs, new_revs, x, y);
    lemma_reaches_extended(old_revs, new_revs, y, x);
}

} // verus!
