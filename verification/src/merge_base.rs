//! The merge base: the common ancestor from which a three-way merge starts.
//!
//! Where two heads have several candidates, the base is the first revision,
//! in a breadth-first walk over parent links from the local head, that is
//! also the remote head or an ancestor of it.

use vstd::prelude::*;
use crate::ancestry::ancestors_of;
use crate::error::SyncError;
use crate::history::{
    has_id, lemma_reaches_parent, parent_slot, reaches, slot_of_id, well_formed, History,
};
use crate::revision::{RevisionId, RevisionView};

verus! {

/// The positions of the parents of the revision at `i`, in their order.
pub open spec fn parent_slots(revs: Seq<RevisionView>, i: int) -> Seq<int> {
    Seq::new(revs[i].parents.len(), |k: int| parent_slot(revs, i, k))
}

/// The parents of the revisions of `level`, revision after revision.
pub open spec fn expand(revs: Seq<RevisionView>, level: Seq<int>) -> Seq<int>
    decreases level.len(),
{
    if level.len() == 0 {
        Seq::empty()
    } else {
        expand(revs, level.drop_last()) + parent_slots(revs, level.last())
    }
}

/// `cands` without what `seen` holds and without repeats, first occurrences
/// kept in their order.
pub open spec fn fresh(cands: Seq<int>, seen: Set<int>) -> Seq<int>
    decreases cands.len(),
{
    if cands.len() == 0 {
        Seq::empty()
    } else {
        let r = fresh(cands.drop_last(), seen);
        let c = cands.last();
        if seen.contains(c) || r.contains(c) {
            r
        } else {
            r.push(c)
        }
    }
}

/// The state of the walk after `k` steps from `start`: the revisions first
/// reached by exactly `k` parent links, in the order in which they were
/// reached, and everything reached so far.
pub open spec fn frontier(revs: Seq<RevisionView>, start: int, k: nat) -> (Seq<int>, Set<int>)
    decreases k,
{
    if k == 0 {
        (seq![start], set![start])
    } else {
        let prev = frontier(revs, start, (k - 1) as nat);
        let next = fresh(expand(revs, prev.0), prev.1);
        (next, prev.1.union(next.to_set()))
    }
}

/// The first revision of `level` that is `target` or an ancestor of it.
pub open spec fn first_reaching(revs: Seq<RevisionView>, level: Seq<int>, target: int) -> Option<int>
    decreases level.len(),
{
    if level.len() == 0 {
        None
    } else if reaches(revs, level[0], target) {
        Some(level[0])
    } else {
        first_reaching(revs, level.drop_first(), target)
    }
}

/// The search for the base from step `k` of the walk on.
pub open spec fn base_from(revs: Seq<RevisionView>, local: int, remote: int, k: nat) -> Option<int>
    decreases revs.len() - k,
{
    let level = frontier(revs, local, k).0;
    if level.len() == 0 || k >= revs.len() {
        None
    } else {
        match first_reaching(revs, level, remote) {
            Some(x) => Some(x),
            None => base_from(revs, local, remote, k + 1),
        }
    }
}

/// The position of the merge base of the revisions at `local` and `remote`.
pub open spec fn merge_base_slot(revs: Seq<RevisionView>, local: int, remote: int) -> Option<int> {
    base_from(revs, local, remote, 0)
}

/// The positions that a list of positions stands for.
spec fn slots(v: Seq<usize>) -> Seq<int> {
    v.map_values(|x: usize| x as int)
}

/// The parents of the revisions of `level`, in the order of the walk. No
/// revision of `level` stands after `bound`, so every parent stands before it.
fn expand_level(history: &History, level: &Vec<usize>, bound: usize) -> (cands: Vec<usize>)
    requires
        history.wf(),
        bound < history@.len(),
        forall|i: int| 0 <= i < level@.len() ==> (#[trigger] level@[i]) <= bound,
    ensures
        slots(cands@) == expand(history@, slots(level@)),
        forall|j: int| 0 <= j < cands@.len() ==> (#[trigger] cands@[j]) < bound,
{
    let mut cands: Vec<usize> = Vec::new();
    let n: usize = level.len();
    let mut i: usize = 0;
    let ghost revs = history@;
    let ghost lv = slots(level@);
    assert(lv.take(0) =~= Seq::<int>::empty());
    while i < n
        invariant
            history.wf(),
            revs == history@,
            lv == slots(level@),
            n == level@.len(),
            i <= n,
            bound < revs.len(),
            forall|q: int| 0 <= q < level@.len() ==> (#[trigger] level@[q]) <= bound,
            slots(cands@) == expand(revs, lv.take(i as int)),
            forall|j: int| 0 <= j < cands@.len() ==> (#[trigger] cands@[j]) < bound,
        decreases n - i,
    {
        let x: usize = level[i];
        let ps = history.parent_positions(x);
        let m: usize = ps.len();
        let mut k: usize = 0;
        let ghost base = slots(cands@);
        assert(parent_slots(revs, x as int).take(0) =~= Seq::<int>::empty());
        assert(base + Seq::<int>::empty() =~= base);
        while k < m
            invariant
                x <= bound,
                m == ps@.len(),
                m == revs[x as int].parents.len(),
                k <= m,
                forall|q: int|
                    0 <= q < m ==> (#[trigger] ps@[q]) as int == parent_slot(revs, x as int, q)
                        && ps@[q] < x,
                slots(cands@) == base + parent_slots(revs, x as int).take(k as int),
                forall|j: int| 0 <= j < cands@.len() ==> (#[trigger] cands@[j]) < bound,
            decreases m - k,
        {
            let p: usize = ps[k];
            let ghost before = cands@;
            cands.push(p);
            proof {
                assert(ps@[k as int] as int == parent_slot(revs, x as int, k as int));
                assert(slots(cands@) =~= slots(before).push(p as int));
                assert(parent_slots(revs, x as int).take(k + 1) =~= parent_slots(
                    revs,
                    x as int,
                ).take(k as int).push(p as int));
                assert(slots(cands@) =~= base + parent_slots(revs, x as int).take(k + 1));
            }
            k = k + 1;
        }
        proof {
            assert(parent_slots(revs, x as int).take(m as int) =~= parent_slots(revs, x as int));
            assert(lv.take(i + 1).drop_last() =~= lv.take(i as int));
            assert(lv.take(i + 1).last() == x as int);
        }
        i = i + 1;
    }
    proof {
        assert(lv.take(n as int) =~= lv);
    }
    cands
}

/// The positions that a list of marks holds.
spec fn marked(v: Seq<bool>) -> Set<int> {
    Set::new(|x: int| 0 <= x < v.len() && v[x])
}

/// The candidates not yet reached, each once, in their order; marks them as
/// reached.
fn keep_fresh(cands: &Vec<usize>, visited: &mut Vec<bool>) -> (next: Vec<usize>)
    requires
        forall|j: int| 0 <= j < cands@.len() ==> (#[trigger] cands@[j]) < old(visited)@.len(),
    ensures
        final(visited)@.len() == old(visited)@.len(),
        slots(next@) == fresh(slots(cands@), marked(old(visited)@)),
        marked(final(visited)@) =~= marked(old(visited)@).union(slots(next@).to_set()),
        forall|j: int|
            0 <= j < next@.len() ==> exists|q: int|
                0 <= q < cands@.len() && cands@[q] == #[trigger] next@[j],
{
    let mut next: Vec<usize> = Vec::new();
    let n: usize = cands.len();
    let mut j: usize = 0;
    let ghost seen = marked(visited@);
    let ghost cs = slots(cands@);
    assert(cs.take(0) =~= Seq::<int>::empty());
    while j < n
        invariant
            n == cands@.len(),
            j <= n,
            cs == slots(cands@),
            seen == marked(old(visited)@),
            visited@.len() == old(visited)@.len(),
            forall|q: int| 0 <= q < cands@.len() ==> (#[trigger] cands@[q]) < visited@.len(),
            slots(next@) == fresh(cs.take(j as int), seen),
            forall|x: int|
                0 <= x < visited@.len() ==> (#[trigger] visited@[x] <==> (seen.contains(x)
                    || slots(next@).contains(x))),
            forall|a: int|
                0 <= a < next@.len() ==> exists|q: int|
                    0 <= q < cands@.len() && cands@[q] == #[trigger] next@[a],
        decreases n - j,
    {
        let c: usize = cands[j];
        proof {
            assert(cs.take(j + 1).drop_last() =~= cs.take(j as int));
            assert(cs.take(j + 1).last() == c as int);
        }
        if !visited[c] {
            let ghost before = next@;
            let ghost marks_before = visited@;
            visited.set(c, true);
            next.push(c);
            proof {
                assert(slots(next@) =~= slots(before).push(c as int));
                assert forall|x: int| 0 <= x < visited@.len() implies (
                #[trigger] visited@[x] <==> (seen.contains(x) || slots(next@).contains(x))) by {
                    if x == c {
                        assert(slots(next@)[before.len() as int] == c as int);
                    } else {
                        assert(visited@[x] == marks_before[x]);
                        if slots(before).contains(x) {
                            let w = choose|w: int| 0 <= w < slots(before).len() && slots(before)[w] == x;
                            assert(slots(next@)[w] == x);
                        }
                        if slots(next@).contains(x) {
                            let w = choose|w: int| 0 <= w < slots(next@).len() && slots(next@)[w] == x;
                            assert(w < before.len());
                            assert(slots(before)[w] == x);
                        }
                    }
                }
                assert forall|a: int| 0 <= a < next@.len() implies exists|q: int|
                    0 <= q < cands@.len() && cands@[q] == #[trigger] next@[a] by {
                    if a == before.len() {
                        assert(cands@[j as int] == next@[a]);
                    } else {
                        assert(next@[a] == before[a]);
                    }
                }
            }
        }
        j = j + 1;
    }
    proof {
        assert(cs.take(n as int) =~= cs);
        assert forall|x: int|
            marked(visited@).contains(x) <==> (seen.contains(x) || slots(next@).to_set().contains(
                x,
            )) by {
            if slots(next@).to_set().contains(x) {
                let w = choose|w: int| 0 <= w < slots(next@).len() && slots(next@)[w] == x;
                let q = choose|q: int| 0 <= q < cands@.len() && cands@[q] == next@[w];
                assert(0 <= x < visited@.len());
                assert(slots(next@).contains(x));
            }
        }
    }
    next
}

/// The first position of `level` whose mark in `common` is set.
fn first_marked(level: &Vec<usize>, common: &Vec<bool>) -> (r: Option<usize>)
    requires
        forall|i: int| 0 <= i < level@.len() ==> (#[trigger] level@[i]) < common@.len(),
    ensures
        r matches Some(x) ==> exists|i: int|
            0 <= i < level@.len() && level@[i] == x && common@[x as int] && forall|j: int|
                0 <= j < i ==> !common@[(#[trigger] level@[j]) as int],
        r is None ==> forall|j: int| 0 <= j < level@.len() ==> !common@[(#[trigger] level@[j]) as int],
{
    let n: usize = level.len();
    let mut i: usize = 0;
    while i < n
        invariant
            n == level@.len(),
            i <= n,
            forall|q: int| 0 <= q < level@.len() ==> (#[trigger] level@[q]) < common@.len(),
            forall|j: int| 0 <= j < i ==> !common@[(#[trigger] level@[j]) as int],
        decreases n - i,
    {
        let x: usize = level[i];
        if common[x] {
            return Some(x);
        }
        i = i + 1;
    }
    None
}

/// In a level, the first revision that leads to `target` is found by
/// passing over those that do not.
proof fn lemma_first_reaching(revs: Seq<RevisionView>, level: Seq<int>, target: int, i: int)
    requires
        0 <= i <= level.len(),
        forall|j: int| 0 <= j < i ==> !reaches(revs, #[trigger] level[j], target),
    ensures
        i < level.len() && reaches(revs, level[i], target) ==> first_reaching(revs, level, target)
            == Some(level[i]),
        i == level.len() ==> first_reaching(revs, level, target) is None,
    decreases level.len(),
{
    if level.len() > 0 {
        if i == 0 {
        } else {
            assert(!reaches(revs, level[0], target));
            let rest = level.drop_first();
            assert forall|j: int| 0 <= j < i - 1 implies !reaches(
                revs,
                #[trigger] rest[j],
                target,
            ) by {
                assert(rest[j] == level[j + 1]);
            }
            lemma_first_reaching(revs, rest, target, i - 1);
        }
    }
}

/// The position of the merge base of the revisions at `local` and `remote`.
pub fn merge_base_at(history: &History, local: usize, remote: usize) -> (r: Option<usize>)
    requires
        history.wf(),
        local < history@.len(),
        remote < history@.len(),
    ensures
        r is Some <==> merge_base_slot(history@, local as int, remote as int) is Some,
        r matches Some(x) ==> merge_base_slot(history@, local as int, remote as int) == Some(
            x as int,
        ) && x < history@.len(),
{
    let ghost revs = history@;
    let n: usize = history.len();
    let common = ancestors_of(history, remote);
    let mut visited: Vec<bool> = Vec::new();
    let mut c: usize = 0;
    while c < n
        invariant
            c <= n,
            visited@.len() == c,
            forall|a: int| 0 <= a < c ==> !visited@[a],
        decreases n - c,
    {
        visited.push(false);
        c = c + 1;
    }
    visited.set(local, true);
    let mut level: Vec<usize> = Vec::new();
    level.push(local);
    let mut bound: usize = local;
    let ghost mut k: nat = 0;
    proof {
        assert(slots(level@) =~= seq![local as int]);
        assert(marked(visited@) =~= set![local as int]);
    }
    loop
        invariant
            history.wf(),
            revs == history@,
            n == revs.len(),
            remote < n,
            local < n,
            common@.len() == n,
            forall|a: int| 0 <= a < n ==> common@[a] == reaches(revs, a, remote as int),
            visited@.len() == n,
            bound < n,
            k + bound == local,
            level@.len() > 0,
            forall|i: int| 0 <= i < level@.len() ==> (#[trigger] level@[i]) <= bound,
            slots(level@) == frontier(revs, local as int, k).0,
            marked(visited@) =~= frontier(revs, local as int, k).1,
            merge_base_slot(revs, local as int, remote as int) == base_from(
                revs,
                local as int,
                remote as int,
                k,
            ),
        decreases bound,
    {
        let ghost lv = slots(level@);
        match first_marked(&level, &common) {
            Some(x) => {
                proof {
                    let i = choose|i: int|
                        0 <= i < level@.len() && level@[i] == x && common@[x as int] && forall|j: int|
                            0 <= j < i ==> !common@[(#[trigger] level@[j]) as int];
                    assert forall|j: int| 0 <= j < i implies !reaches(
                        revs,
                        #[trigger] lv[j],
                        remote as int,
                    ) by {
                        assert(!common@[level@[j] as int]);
                    }
                    assert(lv[i] == x as int);
                    lemma_first_reaching(revs, lv, remote as int, i);
                }
                return Some(x);
            },
            None => {
                proof {
                    assert forall|j: int| 0 <= j < lv.len() implies !reaches(
                        revs,
                        #[trigger] lv[j],
                        remote as int,
                    ) by {
                        assert(!common@[level@[j] as int]);
                    }
                    lemma_first_reaching(revs, lv, remote as int, lv.len() as int);
                }
            },
        }
        let cands = expand_level(history, &level, bound);
        let next = keep_fresh(&cands, &mut visited);
        proof {
            assert(frontier(revs, local as int, k + 1).0 == slots(next@));
            assert(marked(visited@) =~= frontier(revs, local as int, k + 1).1);
            assert(base_from(revs, local as int, remote as int, k) == base_from(
                revs,
                local as int,
                remote as int,
                k + 1,
            ));
        }
        if next.len() == 0 {
            return None;
        }
        proof {
            assert forall|j: int| 0 <= j < next@.len() implies (#[trigger] next@[j]) < bound by {
                let q = choose|q: int| 0 <= q < cands@.len() && cands@[q] == next@[j];
            }
            assert(next@[0] < bound);
            k = k + 1;
        }
        bound = bound - 1;
        level = next;
    }
}

/// What `merge_base` answers.
pub open spec fn merge_base_outcome(revs: Seq<RevisionView>, local: Seq<char>, remote: Seq<char>) -> Result<
    Seq<char>,
    SyncError,
> {
    if !has_id(revs, local) || !has_id(revs, remote) {
        Err(SyncError::NotFoundError)
    } else {
        match merge_base_slot(revs, slot_of_id(revs, local), slot_of_id(revs, remote)) {
            Some(x) => Ok(revs[x].id),
            None => Err(SyncError::MergeBaseNotFoundError),
        }
    }
}

/// The name of the merge base of two heads. `NotFoundError` if a head is
/// not held, `MergeBaseNotFoundError` if the two histories have no revision
/// in common.
pub fn merge_base(history: &History, local_head: &str, remote_head: &str) -> (r: Result<
    RevisionId,
    SyncError,
>)
    requires
        history.wf(),
    ensures
        r is Ok <==> merge_base_outcome(history@, local_head@, remote_head@) is Ok,
        r matches Ok(id) ==> merge_base_outcome(history@, local_head@, remote_head@) == Ok::<
            Seq<char>,
            SyncError,
        >(id@),
        r matches Err(e) ==> merge_base_outcome(history@, local_head@, remote_head@) == Err::<
            Seq<char>,
            SyncError,
        >(e),
{
    let l = match history.find(local_head) {
        Some(l) => l,
        None => {
            return Err(SyncError::NotFoundError);
        },
    };
    let t = match history.find(remote_head) {
        Some(t) => t,
        None => {
            return Err(SyncError::NotFoundError);
        },
    };
    match merge_base_at(history, l, t) {
        Some(x) => Ok(history.revision_at(x).id.clone()),
        None => Err(SyncError::MergeBaseNotFoundError),
    }
}

/// What `fresh` keeps: each candidate that `seen` does not hold.
proof fn lemma_fresh_members(cands: Seq<int>, seen: Set<int>, x: int)
    ensures
        fresh(cands, seen).contains(x) <==> cands.contains(x) && !seen.contains(x),
    decreases cands.len(),
{
    if cands.len() > 0 {
        let rest = cands.drop_last();
        let r = fresh(rest, seen);
        let c = cands.last();
        lemma_fresh_members(rest, seen, x);
        if cands.contains(x) {
            let w = choose|w: int| 0 <= w < cands.len() && cands[w] == x;
            if w < cands.len() - 1 {
                assert(rest[w] == x);
            }
        }
        if rest.contains(x) {
            let w = choose|w: int| 0 <= w < rest.len() && rest[w] == x;
            assert(cands[w] == x);
        }
        assert(cands[cands.len() - 1] == c);
        if !(seen.contains(c) || r.contains(c)) {
            assert(r.push(c)[r.len() as int] == c);
            if r.push(c).contains(x) {
                let w = choose|w: int| 0 <= w < r.push(c).len() && r.push(c)[w] == x;
                if w < r.len() {
                    assert(r[w] == x);
                }
            }
            if r.contains(x) {
                let w = choose|w: int| 0 <= w < r.len() && r[w] == x;
                assert(r.push(c)[w] == x);
            }
        }
    }
}

/// What `expand` holds: the parents of the revisions of the level.
proof fn lemma_expand_members(revs: Seq<RevisionView>, level: Seq<int>, p: int)
    ensures
        expand(revs, level).contains(p) <==> exists|i: int, k: int|
            0 <= i < level.len() && 0 <= k < revs[level[i]].parents.len() && p
                == #[trigger] parent_slot(revs, level[i], k),
    decreases level.len(),
{
    if level.len() > 0 {
        let rest = level.drop_last();
        let x = level.last();
        let a = expand(revs, rest);
        let b = parent_slots(revs, x);
        lemma_expand_members(revs, rest, p);
        if (a + b).contains(p) {
            let w = choose|w: int| 0 <= w < (a + b).len() && (a + b)[w] == p;
            if w < a.len() {
                assert(a[w] == p);
                let (i, k) = choose|i: int, k: int|
                    0 <= i < rest.len() && 0 <= k < revs[rest[i]].parents.len() && p
                        == #[trigger] parent_slot(revs, rest[i], k);
                assert(level[i] == rest[i]);
                assert(0 <= i < level.len() && 0 <= k < revs[level[i]].parents.len() && p
                    == parent_slot(revs, level[i], k));
            } else {
                let k = w - a.len();
                let i = level.len() - 1;
                assert(b[k] == p);
                assert(0 <= i < level.len() && 0 <= k < revs[level[i]].parents.len() && p
                    == parent_slot(revs, level[i], k));
            }
        }
        if exists|i: int, k: int|
            0 <= i < level.len() && 0 <= k < revs[level[i]].parents.len() && p
                == #[trigger] parent_slot(revs, level[i], k) {
            let (i, k) = choose|i: int, k: int|
                0 <= i < level.len() && 0 <= k < revs[level[i]].parents.len() && p
                    == #[trigger] parent_slot(revs, level[i], k);
            if i < level.len() - 1 {
                assert(rest[i] == level[i]);
                assert(0 <= i < rest.len() && 0 <= k < revs[rest[i]].parents.len() && p
                    == parent_slot(revs, rest[i], k));
                assert(a.contains(p));
                let w = choose|w: int| 0 <= w < a.len() && a[w] == p;
                assert((a + b)[w] == p);
            } else {
                assert(b[k] == p);
                assert((a + b)[a.len() + k] == p);
            }
        }
    }
}

/// Every revision of a level of the walk is the start or an ancestor of it,
/// and stands at least as many positions before it as the level is deep.
pub proof fn lemma_frontier_reaches(revs: Seq<RevisionView>, start: int, k: nat, x: int)
    requires
        well_formed(revs),
        0 <= start < revs.len(),
        frontier(revs, start, k).0.contains(x),
    ensures
        reaches(revs, x, start),
        0 <= x <= start - k,
        frontier(revs, start, k).1.contains(x),
    decreases k,
{
    if k > 0 {
        let prev = frontier(revs, start, (k - 1) as nat);
        let cands = expand(revs, prev.0);
        lemma_fresh_members(cands, prev.1, x);
        lemma_expand_members(revs, prev.0, x);
        let (i, q) = choose|i: int, q: int|
            0 <= i < prev.0.len() && 0 <= q < revs[prev.0[i]].parents.len() && x
                == #[trigger] parent_slot(revs, prev.0[i], q);
        assert(prev.0.contains(prev.0[i]));
        lemma_frontier_reaches(revs, start, (k - 1) as nat, prev.0[i]);
        lemma_reaches_parent(revs, prev.0[i], q, start);
    } else {
        assert(frontier(revs, start, k).0[0] == start);
    }
}

/// Everything the walk has reached after `k` steps stands in one of its
/// first levels.
proof fn lemma_seen_in_level(revs: Seq<RevisionView>, start: int, k: nat, x: int) -> (j: nat)
    requires
        frontier(revs, start, k).1.contains(x),
    ensures
        j <= k,
        frontier(revs, start, j).0.contains(x),
    decreases k,
{
    if k == 0 {
        assert(frontier(revs, start, 0).0[0] == start);
        0
    } else {
        let prev = frontier(revs, start, (k - 1) as nat);
        if prev.1.contains(x) {
            lemma_seen_in_level(revs, start, (k - 1) as nat, x)
        } else {
            k
        }
    }
}

/// The walk reaches every ancestor of a revision that it reaches.
proof fn lemma_walk_complete(revs: Seq<RevisionView>, start: int, k: nat, x: int, c: int) -> (j:
    nat)
    requires
        well_formed(revs),
        0 <= start < revs.len(),
        frontier(revs, start, k).0.contains(x),
        reaches(revs, c, x),
    ensures
        frontier(revs, start, j).0.contains(c),
    decreases x,
{
    if c == x {
        k
    } else {
        lemma_frontier_reaches(revs, start, k, x);
        let m = choose|m: int|
            0 <= m < revs[x].parents.len() && 0 <= #[trigger] parent_slot(revs, x, m) < x
                && reaches(revs, c, parent_slot(revs, x, m));
        let p = parent_slot(revs, x, m);
        let cur = frontier(revs, start, k);
        let w = choose|w: int| 0 <= w < cur.0.len() && cur.0[w] == x;
        assert(0 <= w < cur.0.len() && 0 <= m < revs[cur.0[w]].parents.len() && p == parent_slot(
            revs,
            cur.0[w],
            m,
        ));
        lemma_expand_members(revs, cur.0, p);
        lemma_fresh_members(expand(revs, cur.0), cur.1, p);
        if cur.1.contains(p) {
            let j0 = lemma_seen_in_level(revs, start, k, p);
            lemma_walk_complete(revs, start, j0, p, c)
        } else {
            assert(frontier(revs, start, k + 1).0.contains(p));
            lemma_walk_complete(revs, start, k + 1, p, c)
        }
    }
}

/// What `first_reaching` finds.
proof fn lemma_first_reaching_found(revs: Seq<RevisionView>, level: Seq<int>, target: int)
    ensures
        first_reaching(revs, level, target) matches Some(x) ==> level.contains(x) && reaches(
            revs,
            x,
            target,
        ),
        first_reaching(revs, level, target) is None ==> forall|i: int|
            0 <= i < level.len() ==> !reaches(revs, #[trigger] level[i], target),
    decreases level.len(),
{
    if level.len() > 0 {
        let rest = level.drop_first();
        lemma_first_reaching_found(revs, rest, target);
        assert(level[0] == level[0]);
        if !reaches(revs, level[0], target) {
            if first_reaching(revs, rest, target) is Some {
                let x = first_reaching(revs, rest, target)->Some_0;
                let w = choose|w: int| 0 <= w < rest.len() && rest[w] == x;
                assert(level[w + 1] == x);
            } else {
                assert forall|i: int| 0 <= i < level.len() implies !reaches(
                    revs,
                    #[trigger] level[i],
                    target,
                ) by {
                    if i > 0 {
                        assert(rest[i - 1] == level[i]);
                    }
                }
            }
        }
    }
}

/// The search, started at any step, finds only common ancestors.
proof fn lemma_base_from_sound(revs: Seq<RevisionView>, local: int, remote: int, k: nat)
    requires
        well_formed(revs),
        0 <= local < revs.len(),
    ensures
        base_from(revs, local, remote, k) matches Some(x) ==> 0 <= x < revs.len() && reaches(
            revs,
            x,
            local,
        ) && reaches(revs, x, remote),
    decreases revs.len() - k,
{
    let level = frontier(revs, local, k).0;
    if !(level.len() == 0 || k >= revs.len()) {
        lemma_first_reaching_found(revs, level, remote);
        match first_reaching(revs, level, remote) {
            Some(x) => {
                lemma_frontier_reaches(revs, local, k, x);
            },
            None => {
                lemma_base_from_sound(revs, local, remote, k + 1);
            },
        }
    }
}

/// Once a level of the walk is empty, so is every later one.
proof fn lemma_levels_stay_empty(revs: Seq<RevisionView>, start: int, k: nat, j: nat)
    requires
        frontier(revs, start, k).0.len() == 0,
        k <= j,
    ensures
        frontier(revs, start, j).0.len() == 0,
    decreases j - k,
{
    if k < j {
        lemma_levels_stay_empty(revs, start, k, (j - 1) as nat);
        assert(expand(revs, frontier(revs, start, (j - 1) as nat).0).len() == 0);
    }
}

/// The search finds a base if a common ancestor stands in a level not yet
/// passed.
proof fn lemma_base_from_complete(
    revs: Seq<RevisionView>,
    local: int,
    remote: int,
    k: nat,
    kc: nat,
    c: int,
)
    requires
        well_formed(revs),
        0 <= local < revs.len(),
        k <= kc,
        frontier(revs, local, kc).0.contains(c),
        reaches(revs, c, remote),
    ensures
        base_from(revs, local, remote, k) is Some,
    decreases kc - k,
{
    lemma_frontier_reaches(revs, local, kc, c);
    let level = frontier(revs, local, k).0;
    if level.len() == 0 {
        lemma_levels_stay_empty(revs, local, k, kc);
    }
    lemma_first_reaching_found(revs, level, remote);
    if first_reaching(revs, level, remote) is None {
        if k == kc {
            let w = choose|w: int| 0 <= w < level.len() && level[w] == c;
            assert(!reaches(revs, level[w], remote));
        } else {
            lemma_base_from_complete(revs, local, remote, k + 1, kc, c);
        }
    }
}

/// The merge base is a common ancestor of the two heads: it is each head or
/// an ancestor of it.
pub proof fn lemma_merge_base_is_common_ancestor(revs: Seq<RevisionView>, local: int, remote: int)
    requires
        well_formed(revs),
        0 <= local < revs.len(),
        0 <= remote < revs.len(),
    ensures
        merge_base_slot(revs, local, remote) matches Some(x) ==> 0 <= x < revs.len() && reaches(
            revs,
            x,
            local,
        ) && reaches(revs, x, remote),
{
    lemma_base_from_sound(revs, local, remote, 0);
}

/// A merge base exists exactly when the two heads have a common ancestor.
pub proof fn lemma_merge_base_exists_iff_related(revs: Seq<RevisionView>, local: int, remote: int)
    requires
        well_formed(revs),
        0 <= local < revs.len(),
        0 <= remote < revs.len(),
    ensures
        merge_base_slot(revs, local, remote) is Some <==> exists|c: int|
            reaches(revs, c, local) && reaches(revs, c, remote),
{
    lemma_base_from_sound(revs, local, remote, 0);
    if exists|c: int| reaches(revs, c, local) && reaches(revs, c, remote) {
        let c = choose|c: int| reaches(revs, c, local) && reaches(revs, c, remote);
        assert(frontier(revs, local, 0).0[0] == local);
        let kc = lemma_walk_complete(revs, local, 0, local, c);
        lemma_base_from_complete(revs, local, remote, 0, kc, c);
    }
}

/// The search, started at step `k0`, ends in the first level that holds a
/// revision leading to the remote head, at the first such revision.
proof fn lemma_base_from_first(
    revs: Seq<RevisionView>,
    local: int,
    remote: int,
    k0: nat,
) -> (k: nat)
    requires
        base_from(revs, local, remote, k0) is Some,
    ensures
        k0 <= k,
        first_reaching(revs, frontier(revs, local, k).0, remote) == base_from(
            revs,
            local,
            remote,
            k0,
        ),
        forall|j: nat|
            k0 <= j < k ==> first_reaching(revs, #[trigger] frontier(revs, local, j).0, remote)
                is None,
    decreases revs.len() - k0,
{
    let level = frontier(revs, local, k0).0;
    if first_reaching(revs, level, remote) is Some {
        k0
    } else {
        lemma_base_from_first(revs, local, remote, k0 + 1)
    }
}

/// The merge base is the revision that the walk from the local head reaches
/// first among those that lead to the remote head: no revision of an
/// earlier level leads there, and none that stands before it in its own
/// level.
pub proof fn lemma_merge_base_is_first_reached(
    revs: Seq<RevisionView>,
    local: int,
    remote: int,
) -> (k: nat)
    requires
        merge_base_slot(revs, local, remote) is Some,
    ensures
        first_reaching(revs, frontier(revs, local, k).0, remote) == merge_base_slot(
            revs,
            local,
            remote,
        ),
        forall|j: nat, i: int|
            j < k && 0 <= i < frontier(revs, local, j).0.len() ==> !reaches(
                revs,
                #[trigger] frontier(revs, local, j).0[i],
                remote,
            ),
{
    let k = lemma_base_from_first(revs, local, remote, 0);
    assert forall|j: nat, i: int| j < k && 0 <= i < frontier(revs, local, j).0.len() implies !reaches(
        revs,
        #[trigger] frontier(revs, local, j).0[i],
        remote,
    ) by {
        assert(first_reaching(revs, frontier(revs, local, j).0, remote) is None);
        lemma_first_reaching_found(revs, frontier(revs, local, j).0, remote);
    }
    k
}

} // verus!
