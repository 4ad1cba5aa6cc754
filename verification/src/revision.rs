//! Revisions: immutable snapshots of the tracked tree with their parent
//! links.

use vstd::prelude::*;
use crate::tree::Tree;

verus! {

/// The name of a revision: the hexadecimal object name under which the
/// history holds it.
pub type RevisionId = String;

/// Who made a revision.
pub struct Identity {
    pub name: String,
    pub email: String,
}

/// A snapshot of the tracked tree, with the revisions it was made from.
/// A root has no parent, an ordinary revision one, a merge two. A history
/// read from elsewhere may hold merges of more.
pub struct Revision {
    pub id: RevisionId,
    pub parents: Vec<RevisionId>,
    pub tree: Tree,
    pub message: String,
    pub author: Identity,
    pub timestamp: u64,
}

/// What a revision holds, as plain mathematical values.
pub struct RevisionView {
    pub id: Seq<char>,
    pub parents: Seq<Seq<char>>,
    pub tree: Map<Seq<char>, Seq<u8>>,
    pub message: Seq<char>,
    pub author_name: Seq<char>,
    pub author_email: Seq<char>,
    pub timestamp: u64,
}

/// The texts of a sequence of strings.
pub open spec fn texts(v: Seq<String>) -> Seq<Seq<char>> {
    v.map_values(|s: String| s@)
}

impl Identity {
    /// A copy of the identity.
    pub fn duplicate(&self) -> (r: Self)
        ensures
            r.name@ == self.name@,
            r.email@ == self.email@,
    {
        Identity { name: self.name.clone(), email: self.email.clone() }
    }
}

impl View for Revision {
    type V = RevisionView;

    open spec fn view(&self) -> RevisionView {
        RevisionView {
            id: self.id@,
            parents: texts(self.parents@),
            tree: self.tree@,
            message: self.message@,
            author_name: self.author.name@,
            author_email: self.author.email@,
            timestamp: self.timestamp,
        }
    }
}

/// A copy of a list of revision names.
pub fn copy_ids(ids: &Vec<RevisionId>) -> (r: Vec<RevisionId>)
    ensures
        texts(r@) == texts(ids@),
{
    let mut r: Vec<RevisionId> = Vec::new();
    let n: usize = ids.len();
    let mut i: usize = 0;
    while i < n
        invariant
            n == ids@.len(),
            i <= n,
            texts(r@) =~= texts(ids@).take(i as int),
        decreases n - i,
    {
        let ghost before = r@;
        let id = ids[i].clone();
        r.push(id);
        proof {
            assert(r@ =~= before.push(id));
            assert(texts(r@) =~= texts(before).push(ids@[i as int]@));
        }
        i = i + 1;
    }
    proof {
        assert(texts(ids@) =~= texts(ids@).take(n as int));
    }
    r
}

impl Revision {
    /// A copy of the revision.
    pub fn duplicate(&self) -> (r: Self)
        requires
            self.tree.wf(),
        ensures
            r.tree.wf(),
            r@ == self@,
    {
        Revision {
            id: self.id.clone(),
            parents: copy_ids(&self.parents),
            tree: self.tree.duplicate(),
            message: self.message.clone(),
            author: self.author.duplicate(),
            timestamp: self.timestamp,
        }
    }
}

} // verus!
