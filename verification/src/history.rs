//! The revision graph: every revision the repository knows, parents before
//! children, and the ancestor relation that the graph defines.

use vstd::prelude::*;
use crate::error::SyncError;
use crate::path::same_text;
use crate::revision::{Revision, RevisionView};

verus! {

/// Some revision of `revs` is named `id`.
pub open spec fn has_id(revs: Seq<RevisionView>, id: Seq<char>) -> bool {
    exists|i: int| 0 <= i < revs.len() && (#[trigger] revs[i]).id == id
}

/// The position in `revs` of the revision named `id`.
pub open spec fn slot_of_id(revs: Seq<RevisionView>, id: Seq<char>) -> int {
    choose|i: int| 0 <= i < revs.len() && (#[trigger] revs[i]).id == id
}

/// The position of the `k`-th parent of the revision at position `i`.
pub open spec fn parent_slot(revs: Seq<RevisionView>, i: int, k: int) -> int {
    slot_of_id(revs, revs[i].parents[k])
}

/// No two revisions share a name.
pub open spec fn distinct_ids(revs: Seq<RevisionView>) -> bool {
    forall|i: int, j: int|
        0 <= i < j < revs.len() ==> (#[trigger] revs[i]).id != (#[trigger] revs[j]).id
}

/// Every parent of a revision is held, and at an earlier position.
pub open spec fn parents_precede(revs: Seq<RevisionView>) -> bool {
    forall|i: int, k: int|
        0 <= i < revs.len() && 0 <= k < revs[i].parents.len() ==> {
            let p = #[trigger] parent_slot(revs, i, k);
            0 <= p < i && revs[p].id == revs[i].parents[k]
        }
}

/// What holds of every history: names are unique, and parents are held
/// before their children, so that the graph has no cycle and no dangling
/// parent.
pub open spec fn well_formed(revs: Seq<RevisionView>) -> bool {
    &&& distinct_ids(revs)
    &&& parents_precede(revs)
}

/// The revision at position `a` is the one at `b` or an ancestor of it:
/// following parent links from `b` leads to `a`.
pub open spec fn reaches(revs: Seq<RevisionView>, a: int, b: int) -> bool
    decreases b,
{
    a == b || (0 <= b < revs.len() && exists|k: int|
        0 <= k < revs[b].parents.len() && 0 <= #[trigger] parent_slot(revs, b, k) < b && reaches(
            revs,
            a,
            parent_slot(revs, b, k),
        ))
}

/// The revision named `a` is the one named `b` or an ancestor of it.
pub open spec fn is_ancestor(revs: Seq<RevisionView>, a: Seq<char>, b: Seq<char>) -> bool {
    has_id(revs, a) && has_id(revs, b) && reaches(revs, slot_of_id(revs, a), slot_of_id(revs, b))
}

/// With unique names, a name determines its position.
pub proof fn lemma_slot(revs: Seq<RevisionView>, j: int)
    requires
        distinct_ids(revs),
        0 <= j < revs.len(),
    ensures
        has_id(revs, revs[j].id),
        slot_of_id(revs, revs[j].id) == j,
{
    let s = slot_of_id(revs, revs[j].id);
    assert(0 <= s < revs.len() && revs[s].id == revs[j].id);
    if s < j {
        assert(revs[s].id != revs[j].id);
    }
    if j < s {
        assert(revs[j].id != revs[s].id);
    }
}

/// A held name has a position, and the revision there bears the name.
pub proof fn lemma_slot_of_held(revs: Seq<RevisionView>, id: Seq<char>)
    requires
        has_id(revs, id),
    ensures
        0 <= slot_of_id(revs, id) < revs.len(),
        revs[slot_of_id(revs, id)].id == id,
{
}

/// An ancestor never stands after its descendant.
pub proof fn lemma_reaches_order(revs: Seq<RevisionView>, a: int, b: int)
    requires
        reaches(revs, a, b),
    ensures
        a <= b,
    decreases b,
{
    if a != b {
        let k = choose|k: int|
            0 <= k < revs[b].parents.len() && 0 <= #[trigger] parent_slot(revs, b, k) < b
                && reaches(revs, a, parent_slot(revs, b, k));
        lemma_reaches_order(revs, a, parent_slot(revs, b, k));
    }
}

/// A parent of a revision that leads to `b` leads to `b` as well.
pub proof fn lemma_reaches_parent(revs: Seq<RevisionView>, j: int, k: int, b: int)
    requires
        well_formed(revs),
        0 <= j < revs.len(),
        0 <= k < revs[j].parents.len(),
        0 <= b < revs.len(),
        reaches(revs, j, b),
    ensures
        reaches(revs, parent_slot(revs, j, k), b),
    decreases b,
{
    let p = parent_slot(revs, j, k);
    if j == b {
        assert(reaches(revs, p, p));
    } else {
        let m = choose|m: int|
            0 <= m < revs[b].parents.len() && 0 <= #[trigger] parent_slot(revs, b, m) < b
                && reaches(revs, j, parent_slot(revs, b, m));
        lemma_reaches_parent(revs, j, k, parent_slot(revs, b, m));
    }
}

/// The ancestor relation is transitive.
pub proof fn lemma_reaches_transitive(revs: Seq<RevisionView>, a: int, b: int, c: int)
    requires
        reaches(revs, a, b),
        reaches(revs, b, c),
    ensures
        reaches(revs, a, c),
    decreases c,
{
    if b != c {
        let m = choose|m: int|
            0 <= m < revs[c].parents.len() && 0 <= #[trigger] parent_slot(revs, c, m) < c
                && reaches(revs, b, parent_slot(revs, c, m));
        lemma_reaches_transitive(revs, a, b, parent_slot(revs, c, m));
    }
}

/// Adding revisions at the end changes neither the positions nor the
/// ancestors of the revisions already held.
pub proof fn lemma_reaches_extended(
    old_revs: Seq<RevisionView>,
    new_revs: Seq<RevisionView>,
    a: int,
    b: int,
)
    requires
        well_formed(old_revs),
        well_formed(new_revs),
        old_revs.len() <= new_revs.len(),
        forall|i: int| 0 <= i < old_revs.len() ==> old_revs[i] == new_revs[i],
        0 <= b < old_revs.len(),
    ensures
        reaches(old_revs, a, b) == reaches(new_revs, a, b),
    decreases b,
{
    assert forall|k: int| 0 <= k < old_revs[b].parents.len() implies parent_slot(old_revs, b, k)
        == parent_slot(new_revs, b, k) by {
        let p = parent_slot(old_revs, b, k);
        assert(new_revs[p].id == old_revs[b].parents[k]);
        lemma_slot(new_revs, p);
    }
    if a != b {
        if reaches(old_revs, a, b) {
            let m = choose|m: int|
                0 <= m < old_revs[b].parents.len() && 0 <= #[trigger] parent_slot(old_revs, b, m)
                    < b && reaches(old_revs, a, parent_slot(old_revs, b, m));
            lemma_reaches_extended(old_revs, new_revs, a, parent_slot(old_revs, b, m));
            assert(parent_slot(new_revs, b, m) == parent_slot(old_revs, b, m));
        }
        if reaches(new_revs, a, b) {
            let m = choose|m: int|
                0 <= m < new_revs[b].parents.len() && 0 <= #[trigger] parent_slot(new_revs, b, m)
                    < b && reaches(new_revs, a, parent_slot(new_revs, b, m));
            assert(parent_slot(new_revs, b, m) == parent_slot(old_revs, b, m));
            lemma_reaches_extended(old_revs, new_revs, a, parent_slot(old_revs, b, m));
        }
    }
}

/// What `insert` answers for a revision `rv` offered to a history `revs`.
pub open spec fn insert_outcome(revs: Seq<RevisionView>, rv: RevisionView) -> Result<
    (),
    SyncError,
> {
    if has_id(revs, rv.id) {
        Err(SyncError::StorageError)
    } else if exists|k: int| 0 <= k < rv.parents.len() && !has_id(revs, #[trigger] rv.parents[k]) {
        Err(SyncError::NotFoundError)
    } else {
        Ok(())
    }
}

/// The revisions that a repository knows. A revision is added only after
/// its parents, so the order in which they are held is a topological order
/// of the graph.
pub struct History {
    nodes: Vec<Revision>,
    links: Vec<Vec<usize>>,
}

impl History {
    /// The revisions in the order in which they were added.
    pub closed spec fn view(&self) -> Seq<RevisionView> {
        self.nodes@.map_values(|r: Revision| r@)
    }

    /// The history is well formed and its internal parent positions agree
    /// with the parent names.
    pub closed spec fn wf(&self) -> bool {
        &&& well_formed(self@)
        &&& self.links@.len() == self.nodes@.len()
        &&& forall|i: int| 0 <= i < self.nodes@.len() ==> (#[trigger] self.nodes@[i]).tree.wf()
        &&& forall|i: int|
            0 <= i < self.links@.len() ==> (#[trigger] self.links@[i])@.len()
                == self@[i].parents.len()
        &&& forall|i: int, k: int|
            0 <= i < self.links@.len() && 0 <= k < self.links@[i]@.len()
                ==> (#[trigger] self.links@[i]@[k]) as int == parent_slot(self@, i, k)
    }

    /// A history in use is well formed.
    pub proof fn lemma_wf(&self)
        requires
            self.wf(),
        ensures
            well_formed(self@),
    {
    }

    /// The history without any revision.
    pub fn new() -> (r: Self)
        ensures
            r.wf(),
            r@.len() == 0,
    {
        History { nodes: Vec::new(), links: Vec::new() }
    }

    /// The number of revisions.
    pub fn len(&self) -> (n: usize)
        ensures
            n == self@.len(),
    {
        self.nodes.len()
    }

    /// The revision at position `i`.
    pub fn revision_at(&self, i: usize) -> (r: &Revision)
        requires
            self.wf(),
            i < self@.len(),
        ensures
            r@ == self@[i as int],
            r.tree.wf(),
    {
        &self.nodes[i]
    }

    /// The positions of the parents of the revision at position `i`, in the
    /// order of its parents.
    pub fn parent_positions(&self, i: usize) -> (r: &Vec<usize>)
        requires
            self.wf(),
            i < self@.len(),
        ensures
            r@.len() == self@[i as int].parents.len(),
            forall|k: int|
                0 <= k < r@.len() ==> (#[trigger] r@[k]) as int == parent_slot(self@, i as int, k)
                    && r@[k] < i,
    {
        let r = &self.links[i];
        proof {
            assert forall|k: int| 0 <= k < r@.len() implies (#[trigger] r@[k]) as int
                == parent_slot(self@, i as int, k) && r@[k] < i by {
                assert(self.links@[i as int]@[k] as int == parent_slot(self@, i as int, k));
            }
        }
        r
    }

    /// The position of the revision named `id`.
    pub fn find(&self, id: &str) -> (r: Option<usize>)
        requires
            self.wf(),
        ensures
            r is Some <==> has_id(self@, id@),
            r matches Some(i) ==> i == slot_of_id(self@, id@) && i < self@.len() && self@[i as int].id
                == id@,
    {
        let n: usize = self.nodes.len();
        let mut i: usize = 0;
        while i < n
            invariant
                self.wf(),
                n == self@.len(),
                i <= n,
                forall|j: int| 0 <= j < i ==> (#[trigger] self@[j]).id != id@,
            decreases n - i,
        {
            if same_text(self.nodes[i].id.as_str(), id) {
                proof {
                    lemma_slot(self@, i as int);
                }
                return Some(i);
            }
            i = i + 1;
        }
        None
    }

    /// Whether a revision named `id` is held.
    pub fn contains(&self, id: &str) -> (r: bool)
        requires
            self.wf(),
        ensures
            r == has_id(self@, id@),
    {
        self.find(id).is_some()
    }

    /// The revision named `id`.
    pub fn get(&self, id: &str) -> (r: Option<&Revision>)
        requires
            self.wf(),
        ensures
            r is Some <==> has_id(self@, id@),
            r matches Some(rev) ==> rev@ == self@[slot_of_id(self@, id@)] && rev@.id == id@
                && rev.tree.wf(),
    {
        match self.find(id) {
            Some(i) => Some(&self.nodes[i]),
            None => None,
        }
    }

    /// Adds a revision. It is refused with `StorageError` if its name is
    /// already held, with `NotFoundError` if one of its parents is not held;
    /// the history is then unchanged.
    pub fn insert(&mut self, rev: Revision) -> (r: Result<(), SyncError>)
        requires
            old(self).wf(),
            rev.tree.wf(),
        ensures
            final(self).wf(),
            r == insert_outcome(old(self)@, rev@),
            r is Ok ==> final(self)@ == old(self)@.push(rev@),
            r is Err ==> final(self)@ == old(self)@,
    {
        if self.contains(rev.id.as_str()) {
            return Err(SyncError::StorageError);
        }
        let mut slots: Vec<usize> = Vec::new();
        let m: usize = rev.parents.len();
        let mut k: usize = 0;
        while k < m
            invariant
                self.wf(),
                self@ == old(self)@,
                !has_id(self@, rev@.id),
                m == rev@.parents.len(),
                m == rev.parents@.len(),
                k <= m,
                slots@.len() == k,
                forall|j: int|
                    0 <= j < k ==> has_id(self@, #[trigger] rev@.parents[j]) && slots@[j] as int
                        == slot_of_id(self@, rev@.parents[j]),
            decreases m - k,
        {
            assert(rev@.parents[k as int] == rev.parents@[k as int]@);
            match self.find(rev.parents[k].as_str()) {
                Some(s) => {
                    slots.push(s);
                },
                None => {
                    proof {
                        let w = k as int;
                        assert(0 <= w < rev@.parents.len() && !has_id(self@, rev@.parents[w]));
                    }
                    return Err(SyncError::NotFoundError);
                },
            }
            k = k + 1;
        }
        let ghost old_revs = self@;
        let ghost rv = rev@;
        self.nodes.push(rev);
        self.links.push(slots);
        proof {
            let revs = self@;
            let n = old_revs.len() as int;
            assert(revs =~= old_revs.push(rv));
            assert forall|i: int, j: int| 0 <= i < j < revs.len() implies (#[trigger] revs[i]).id
                != (#[trigger] revs[j]).id by {
                if j == n {
                    assert(old_revs[i].id != rv.id);
                }
            }
            assert forall|id: Seq<char>| has_id(old_revs, id) implies slot_of_id(revs, id)
                == slot_of_id(old_revs, id) by {
                let s = slot_of_id(old_revs, id);
                assert(revs[s].id == id);
                lemma_slot(revs, s);
            }
            assert forall|i: int, k: int|
                0 <= i < revs.len() && 0 <= k < revs[i].parents.len() implies {
                let p = #[trigger] parent_slot(revs, i, k);
                0 <= p < i && revs[p].id == revs[i].parents[k]
            } by {
                if i < n {
                    let p = parent_slot(old_revs, i, k);
                    assert(has_id(old_revs, old_revs[i].parents[k])) by {
                        assert(old_revs[p].id == old_revs[i].parents[k]);
                    }
                } else {
                    assert(has_id(old_revs, rv.parents[k]));
                }
            }
            assert forall|i: int, k: int|
                0 <= i < self.links@.len() && 0 <= k < self.links@[i]@.len() implies (
            #[trigger] self.links@[i]@[k]) as int == parent_slot(revs, i, k) by {
                if i < n {
                    assert(self.links@[i] == old(self).links@[i]);
                    let p = parent_slot(old_revs, i, k);
                    assert(has_id(old_revs, old_revs[i].parents[k])) by {
                        assert(old_revs[p].id == old_revs[i].parents[k]);
                    }
                } else {
                    assert(has_id(old_revs, rv.parents[k]));
                }
            }
            assert forall|i: int| 0 <= i < self.nodes@.len() implies (
            #[trigger] self.nodes@[i]).tree.wf() by {
                if i < n {
                    assert(self.nodes@[i] == old(self).nodes@[i]);
                }
            }
        }
        Ok(())
    }
}

} // verus!
