//! Ancestry in the revision graph: which revisions lead to which, how a
//! local head stands to a remote head, and the common ancestor from which a
//! three-way merge starts.

use vstd::prelude::*;
use crate::error::SyncError;
use crate::history::{
    has_id, is_ancestor, lemma_reaches_parent, parent_slot, reaches, slot_of_id, well_formed,
    History,
};
use crate::revision::RevisionView;

verus! {

/// How a local head stands to a remote head.
#[derive(Clone, Copy, Debug, PartialEq, Eq, Structural)]
pub enum MergeClass {
    /// The local history already holds the remote head: nothing to take.
    UpToDate,
    /// The local head is a proper ancestor of the remote head: the local
    /// reference can simply move forward.
    FastForward,
    /// Neither head is an ancestor of the other.
    Divergent,
}

/// The class of a pair of heads, by position.
pub open spec fn classify_slots(revs: Seq<RevisionView>, local: int, remote: int) -> MergeClass {
    if reaches(revs, remote, local) {
        MergeClass::UpToDate
    } else if reaches(revs, local, remote) {
        MergeClass::FastForward
    } else {
        MergeClass::Divergent
    }
}

/// The class of a pair of heads, by name.
pub open spec fn classify(revs: Seq<RevisionView>, local: Seq<char>, remote: Seq<char>) -> MergeClass {
    classify_slots(revs, slot_of_id(revs, local), slot_of_id(revs, remote))
}

/// What `analyze` answers.
pub open spec fn analyze_outcome(revs: Seq<RevisionView>, local: Seq<char>, remote: Seq<char>) -> Result<
    MergeClass,
    SyncError,
> {
    if !has_id(revs, local) || !has_id(revs, remote) {
        Err(SyncError::NotFoundError)
    } else {
        Ok(classify(revs, local, remote))
    }
}

/// A set of marks that holds `x` and is closed under parent links holds
/// every ancestor of `x`.
proof fn lemma_closed_marks(revs: Seq<RevisionView>, marks: Seq<bool>, a: int, x: int)
    requires
        well_formed(revs),
        marks.len() == revs.len(),
        0 <= x < revs.len(),
        marks[x],
        reaches(revs, a, x),
        forall|j: int, k: int|
            0 <= j < revs.len() && marks[j] && 0 <= k < revs[j].parents.len() ==> marks[#[trigger] parent_slot(
                revs,
                j,
                k,
            )],
    ensures
        0 <= a < revs.len(),
        marks[a],
    decreases x,
{
    if a != x {
        let m = choose|m: int|
            0 <= m < revs[x].parents.len() && 0 <= #[trigger] parent_slot(revs, x, m) < x
                && reaches(revs, a, parent_slot(revs, x, m));
        lemma_closed_marks(revs, marks, a, parent_slot(revs, x, m));
    }
}

/// For every position, whether the revision there is the one at `b` or an
/// ancestor of it.
pub fn ancestors_of(history: &History, b: usize) -> (marks: Vec<bool>)
    requires
        history.wf(),
        b < history@.len(),
    ensures
        marks@.len() == history@.len(),
        forall|a: int| 0 <= a < marks@.len() ==> marks@[a] == reaches(history@, a, b as int),
{
    let n: usize = history.len();
    let mut marks: Vec<bool> = Vec::new();
    let mut c: usize = 0;
    while c < n
        invariant
            c <= n,
            marks@.len() == c,
            forall|a: int| 0 <= a < c ==> !marks@[a],
        decreases n - c,
    {
        marks.push(false);
        c = c + 1;
    }
    marks.set(b, true);
    let ghost revs = history@;
    proof {
        history.lemma_wf();
    }
    let mut i: usize = b + 1;
    while i > 0
        invariant
            history.wf(),
            revs == history@,
            well_formed(revs),
            n == revs.len(),
            marks@.len() == n,
            b < n,
            i <= b + 1,
            marks@[b as int],
            forall|a: int| 0 <= a < n && marks@[a] ==> reaches(revs, a, b as int),
            forall|j: int, k: int|
                i <= j < n && marks@[j] && 0 <= k < revs[j].parents.len() ==> marks@[#[trigger] parent_slot(
                    revs,
                    j,
                    k,
                )],
        decreases i,
    {
        i = i - 1;
        if marks[i] {
            let slots = history.parent_positions(i);
            let m: usize = slots.len();
            let mut k: usize = 0;
            while k < m
                invariant
                    history.wf(),
                    revs == history@,
                    well_formed(revs),
                    n == revs.len(),
                    marks@.len() == n,
                    b < n,
                    i <= b,
                    marks@[b as int],
                    marks@[i as int],
                    m == slots@.len(),
                    m == revs[i as int].parents.len(),
                    k <= m,
                    forall|q: int|
                        0 <= q < m ==> (#[trigger] slots@[q]) as int == parent_slot(
                            revs,
                            i as int,
                            q,
                        ) && slots@[q] < i,
                    forall|a: int| 0 <= a < n && marks@[a] ==> reaches(revs, a, b as int),
                    forall|j: int, q: int|
                        i < j < n && marks@[j] && 0 <= q < revs[j].parents.len() ==> marks@[#[trigger] parent_slot(
                            revs,
                            j,
                            q,
                        )],
                    forall|q: int| 0 <= q < k ==> marks@[#[trigger] parent_slot(revs, i as int, q)],
                decreases m - k,
            {
                let p: usize = slots[k];
                proof {
                    assert(slots@[k as int] as int == parent_slot(revs, i as int, k as int));
                    lemma_reaches_parent(revs, i as int, k as int, b as int);
                }
                marks.set(p, true);
                k = k + 1;
            }
        }
    }
    proof {
        assert forall|a: int| 0 <= a < marks@.len() implies marks@[a] == reaches(
            revs,
            a,
            b as int,
        ) by {
            if reaches(revs, a, b as int) {
                lemma_closed_marks(revs, marks@, a, b as int);
            }
        }
    }
    marks
}

/// Whether the revision named `a` is the one named `b` or an ancestor of
/// it. `NotFoundError` if either name is not held.
pub fn ancestor_of(history: &History, a: &str, b: &str) -> (r: Result<bool, SyncError>)
    requires
        history.wf(),
    ensures
        r is Ok <==> has_id(history@, a@) && has_id(history@, b@),
        r matches Ok(v) ==> v == is_ancestor(history@, a@, b@),
        r matches Err(e) ==> e == SyncError::NotFoundError,
{
    let x = match history.find(a) {
        Some(x) => x,
        None => {
            return Err(SyncError::NotFoundError);
        },
    };
    let y = match history.find(b) {
        Some(y) => y,
        None => {
            return Err(SyncError::NotFoundError);
        },
    };
    let marks = ancestors_of(history, y);
    Ok(marks[x])
}

/// Classifies the relation of a local head to a remote head:
/// `UpToDate` if the remote head is the local head or an ancestor of it,
/// `FastForward` if the local head is a proper ancestor of the remote head,
/// `Divergent` otherwise. `NotFoundError` if either name is not held.
pub fn analyze(history: &History, local_head: &str, remote_head: &str) -> (r: Result<
    MergeClass,
    SyncError,
>)
    requires
        history.wf(),
    ensures
        r == analyze_outcome(history@, local_head@, remote_head@),
{
    let l = match history.find(local_head) {
        Some(l) => l,
        None => {
            return Err(SyncError::NotFoundError);
        },
    };
    let t = match history.find(remote_head) {
        Some(t) => t,
        None => {
            return Err(SyncError::NotFoundError);
        },
    };
    let below_local = ancestors_of(history, l);
    if below_local[t] {
        return Ok(MergeClass::UpToDate);
    }
    let below_remote = ancestors_of(history, t);
    if below_remote[l] {
        Ok(MergeClass::FastForward)
    } else {
        Ok(MergeClass::Divergent)
    }
}

} // verus!
