//! The transport layer: what a fetch brings into the local repository and
//! what a push hands to the remote.
//!
//! The remote is modelled by what the network delivers of it: its history
//! and the tip of its branch. Reaching it, and presenting the credential,
//! is the business of the caller.

use vstd::prelude::*;
use vstd::string::StringExecFns;
use crate::ancestry::ancestors_of;
use crate::error::SyncError;
use crate::history::{
    has_id, is_ancestor, lemma_reaches_parent, parent_slot, reaches, slot_of_id, well_formed,
    History,
};
use crate::path::owned_path;
use crate::repository::{name_view, Repository};
use crate::revision::{RevisionId, RevisionView};

verus! {

/// The user name under which a bearer token is presented.
pub open spec fn token_user() -> Seq<char> {
    "x-oauth-basic"@
}

/// What is presented to the remote with each request: a user name and a
/// password. It lives for one call and is kept nowhere.
pub struct Credential {
    pub username: String,
    pub password: String,
}

impl Credential {
    /// The credential that presents a bearer token: the token, unchanged,
    /// as the password of the fixed user name for tokens.
    pub fn bearer(token: &str) -> (r: Self)
        ensures
            r.username@ == token_user(),
            r.password@ == token@,
    {
        Credential { username: String::from_str("x-oauth-basic"), password: owned_path(token) }
    }
}

/// A remote repository as a fetch sees it.
pub struct Remote {
    /// The revisions that the remote holds.
    pub history: History,
    /// The tip of the remote branch, once it exists.
    pub tip: Option<RevisionId>,
}

impl Remote {
    /// The history is well formed and holds the tip.
    pub open spec fn wf(&self) -> bool {
        &&& self.history.wf()
        &&& self.tip matches Some(t) ==> has_id(self.history@, t@)
    }

    /// A remote without any revision.
    pub fn new() -> (r: Self)
        ensures
            r.wf(),
            r.history@.len() == 0,
            r.tip is None,
    {
        Remote { history: History::new(), tip: None }
    }
}

/// Among the first `n` revisions of `source`, those that lead to the
/// revision at `tip` and whose names `target` does not hold, in their order.
pub open spec fn missing(
    target: Seq<RevisionView>,
    source: Seq<RevisionView>,
    tip: int,
    n: int,
) -> Seq<RevisionView>
    decreases n,
{
    if n <= 0 {
        Seq::empty()
    } else {
        let prev = missing(target, source, tip, n - 1);
        if reaches(source, n - 1, tip) && !has_id(target, source[n - 1].id) {
            prev.push(source[n - 1])
        } else {
            prev
        }
    }
}

/// The history that results when `target` receives from `source` what
/// leads to the revision at `tip`.
pub open spec fn received(target: Seq<RevisionView>, source: Seq<RevisionView>, tip: int) -> Seq<
    RevisionView,
> {
    target + missing(target, source, tip, source.len() as int)
}

/// Every missing revision is one of the source, leads to the tip and is
/// not held by the target.
pub proof fn lemma_missing_members(
    target: Seq<RevisionView>,
    source: Seq<RevisionView>,
    tip: int,
    n: int,
    w: int,
)
    requires
        0 <= n <= source.len(),
        0 <= w < missing(target, source, tip, n).len(),
    ensures
        exists|j: int|
            0 <= j < n && source[j] == missing(target, source, tip, n)[w] && reaches(source, j, tip)
                && !has_id(target, source[j].id),
    decreases n,
{
    if n > 0 {
        let prev = missing(target, source, tip, n - 1);
        if w < prev.len() {
            lemma_missing_members(target, source, tip, n - 1, w);
            let j = choose|j: int|
                0 <= j < n - 1 && source[j] == prev[w] && reaches(source, j, tip) && !has_id(
                    target,
                    source[j].id,
                );
            assert(0 <= j < n && source[j] == missing(target, source, tip, n)[w]);
        } else {
            assert(source[n - 1] == missing(target, source, tip, n)[w]);
        }
    }
}

/// Every revision of the source that leads to the tip is held once the
/// missing ones are received.
pub proof fn lemma_missing_complete(
    target: Seq<RevisionView>,
    source: Seq<RevisionView>,
    tip: int,
    n: int,
    j: int,
)
    requires
        0 <= j < n <= source.len(),
        reaches(source, j, tip),
    ensures
        has_id(target + missing(target, source, tip, n), source[j].id),
    decreases n,
{
    let all = target + missing(target, source, tip, n);
    if has_id(target, source[j].id) {
        let w = choose|w: int| 0 <= w < target.len() && (#[trigger] target[w]).id == source[j].id;
        assert(all[w].id == source[j].id);
    } else if j == n - 1 {
        let prev = missing(target, source, tip, n - 1);
        assert(all[(target.len() + prev.len()) as int].id == source[j].id);
    } else {
        lemma_missing_complete(target, source, tip, n - 1, j);
        let prev_all = target + missing(target, source, tip, n - 1);
        let w = choose|w: int|
            0 <= w < prev_all.len() && (#[trigger] prev_all[w]).id == source[j].id;
        assert(all[w].id == source[j].id);
    }
}

/// Nothing is missing from a target that already received from the same
/// source: a second transfer adds no revision.
pub proof fn lemma_nothing_missing_after_transfer(
    target: Seq<RevisionView>,
    source: Seq<RevisionView>,
    tip: int,
    n: int,
)
    requires
        0 <= n <= source.len(),
    ensures
        missing(received(target, source, tip), source, tip, n).len() == 0,
    decreases n,
{
    if n > 0 {
        lemma_nothing_missing_after_transfer(target, source, tip, n - 1);
        if reaches(source, n - 1, tip) {
            lemma_missing_complete(target, source, tip, source.len() as int, n - 1);
        }
    }
}

/// Copies into `target` every revision of `source` that leads to the one at
/// `tip` and that `target` does not hold yet, parents first.
pub fn transfer(source: &History, tip: usize, target: &mut History)
    requires
        source.wf(),
        tip < source@.len(),
        old(target).wf(),
    ensures
        final(target).wf(),
        final(target)@ == received(old(target)@, source@, tip as int),
        has_id(final(target)@, source@[tip as int].id),
        forall|id: Seq<char>| has_id(old(target)@, id) ==> has_id(final(target)@, id),
{
    let ghost src = source@;
    let ghost t0 = target@;
    let n: usize = source.len();
    let marks = ancestors_of(source, tip);
    proof {
        source.lemma_wf();
        assert(target@ =~= t0 + missing(t0, src, tip as int, 0));
    }
    let mut i: usize = 0;
    while i < n
        invariant
            source.wf(),
            src == source@,
            well_formed(src),
            target.wf(),
            n == src.len(),
            tip < n,
            i <= n,
            marks@.len() == n,
            forall|a: int| 0 <= a < n ==> marks@[a] == reaches(src, a, tip as int),
            target@ == t0 + missing(t0, src, tip as int, i as int),
            forall|j: int| 0 <= j < i && marks@[j] ==> has_id(target@, (#[trigger] src[j]).id),
        decreases n - i,
    {
        let rev = source.revision_at(i);
        let ghost cur = target@;
        let ghost prev = missing(t0, src, tip as int, i as int);
        if marks[i] {
            if !target.contains(rev.id.as_str()) {
                let copy = rev.duplicate();
                proof {
                    assert forall|k: int| 0 <= k < copy@.parents.len() implies has_id(
                        cur,
                        #[trigger] copy@.parents[k],
                    ) by {
                        let p = parent_slot(src, i as int, k);
                        lemma_reaches_parent(src, i as int, k, tip as int);
                        assert(has_id(cur, src[p].id));
                    }
                    if has_id(t0, src[i as int].id) {
                        let w = choose|w: int|
                            0 <= w < t0.len() && (#[trigger] t0[w]).id == src[i as int].id;
                        assert(cur[w].id == src[i as int].id);
                    }
                }
                let added = target.insert(copy);
                proof {
                    assert(added is Ok);
                    assert(target@ =~= t0 + missing(t0, src, tip as int, i + 1));
                    assert(target@[cur.len() as int].id == src[i as int].id);
                }
            } else {
                proof {
                    if !has_id(t0, src[i as int].id) {
                        let w = choose|w: int|
                            0 <= w < cur.len() && (#[trigger] cur[w]).id == src[i as int].id;
                        assert(w >= t0.len());
                        lemma_missing_members(t0, src, tip as int, i as int, w - t0.len());
                        let j = choose|j: int|
                            0 <= j < i && src[j] == prev[w - t0.len()] && reaches(
                                src,
                                j,
                                tip as int,
                            ) && !has_id(t0, src[j].id);
                        assert(src[j].id != src[i as int].id);
                    }
                }
            }
        }
        proof {
            assert forall|j: int| 0 <= j < i + 1 && marks@[j] implies has_id(
                target@,
                (#[trigger] src[j]).id,
            ) by {
                if j < i {
                    let w = choose|w: int| 0 <= w < cur.len() && (#[trigger] cur[w]).id == src[j].id;
                    assert(target@[w].id == src[j].id);
                }
            }
        }
        i = i + 1;
    }
    proof {
        assert(marks@[tip as int]);
        assert forall|id: Seq<char>| has_id(t0, id) implies has_id(target@, id) by {
            let w = choose|w: int| 0 <= w < t0.len() && (#[trigger] t0[w]).id == id;
            assert(target@[w].id == id);
        }
    }
}

/// Brings into the local history the revisions that lead to the tip of the
/// remote branch and are not held locally, and moves the remote-tracking
/// reference to that tip, which it returns. Nothing else changes. A second
/// fetch from an unchanged remote adds nothing.
pub fn fetch(repo: &mut Repository, remote: &Remote) -> (r: Result<RevisionId, SyncError>)
    requires
        old(repo).wf(),
        remote.wf(),
    ensures
        final(repo).wf(),
        r is Ok <==> remote.tip is Some,
        r matches Ok(id) ==> {
            &&& Some(id@) == name_view(remote.tip)
            &&& name_view(final(repo).remote_head) == Some(id@)
            &&& final(repo).history@ == received(
                old(repo).history@,
                remote.history@,
                slot_of_id(remote.history@, id@),
            )
        },
        r matches Err(e) ==> e == SyncError::NotFoundError && *final(repo) == *old(repo),
        final(repo).path == old(repo).path,
        final(repo).head == old(repo).head,
        final(repo).merge_head == old(repo).merge_head,
        final(repo).index == old(repo).index,
        forall|id: Seq<char>| has_id(old(repo).history@, id) ==> has_id(final(repo).history@, id),
{
    let tip = match &remote.tip {
        Some(t) => t,
        None => {
            return Err(SyncError::NotFoundError);
        },
    };
    let slot = match remote.history.find(tip.as_str()) {
        Some(s) => s,
        None => {
            return Err(SyncError::NotFoundError);
        },
    };
    transfer(&remote.history, slot, &mut repo.history);
    repo.remote_head = Some(tip.clone());
    Ok(tip.clone())
}

/// What the transport's push answers for a local head, given what the
/// local history knows: `NotFoundError` if it does not hold the head,
/// `NonFastForwardError` if the remote tip is not the head or an ancestor
/// of it.
pub open spec fn push_outcome(
    local: Seq<RevisionView>,
    remote_tip: Option<Seq<char>>,
    local_head: Seq<char>,
) -> Result<(), SyncError> {
    if !has_id(local, local_head) {
        Err(SyncError::NotFoundError)
    } else {
        match remote_tip {
            Some(t) => if is_ancestor(local, t, local_head) {
                Ok(())
            } else {
                Err(SyncError::NonFastForwardError)
            },
            None => Ok(()),
        }
    }
}

/// Hands to the remote the revisions that lead to `local_head` and that it
/// does not hold, and advances its branch to `local_head`. Refused, with
/// the remote untouched, where the remote tip is not `local_head` or an
/// ancestor of it.
pub fn push(repo: &Repository, remote: &mut Remote, local_head: &str) -> (r: Result<(), SyncError>)
    requires
        repo.wf(),
        old(remote).wf(),
    ensures
        final(remote).wf(),
        r == push_outcome(repo.history@, name_view(old(remote).tip), local_head@),
        r is Ok ==> name_view(final(remote).tip) == Some(local_head@) && final(remote).history@
            == received(
            old(remote).history@,
            repo.history@,
            slot_of_id(repo.history@, local_head@),
        ),
        r is Err ==> *final(remote) == *old(remote),
{
    let slot = match repo.history.find(local_head) {
        Some(s) => s,
        None => {
            return Err(SyncError::NotFoundError);
        },
    };
    let allowed = match &remote.tip {
        None => true,
        Some(t) => match repo.history.find(t.as_str()) {
            None => false,
            Some(ts) => {
                let below = ancestors_of(&repo.history, slot);
                below[ts]
            },
        },
    };
    if !allowed {
        return Err(SyncError::NonFastForwardError);
    }
    transfer(&repo.history, slot, &mut remote.history);
    remote.tip = Some(owned_path(local_head));
    Ok(())
}

} // verus!
