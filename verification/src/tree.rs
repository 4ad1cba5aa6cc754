//! Trees: the snapshot of tracked files that a revision records.

use vstd::prelude::*;
use crate::content::{bytes_equal, copy_bytes};
use crate::path::{ascending, lemma_ascending_unique, path_order, PathOrder};
use crate::path_map::PathMap;

verus! {

/// An immutable-by-convention mapping from path to file content, held in
/// ascending path order. Directories are not entries of their own: a file in
/// a directory is an entry under its full path.
pub struct Tree {
    files: PathMap<Vec<u8>>,
}

impl Tree {
    /// The entries are in strictly ascending path order.
    pub closed spec fn wf(&self) -> bool {
        self.files.wf()
    }

    /// The mapping from path to content that the tree stands for.
    pub closed spec fn view(&self) -> Map<Seq<char>, Seq<u8>> {
        self.files@.map_values(|v: Vec<u8>| v@)
    }

    /// The paths of the tree in the order in which they are held.
    pub closed spec fn paths(&self) -> Seq<Seq<char>> {
        self.files.paths()
    }

    /// The listed paths are exactly the paths of the tree, in ascending order.
    pub proof fn lemma_paths(&self)
        requires
            self.wf(),
        ensures
            ascending(self.paths()),
            self@.dom() =~= self.paths().to_set(),
            self@.dom().finite(),
            forall|i: int| 0 <= i < self.paths().len() ==> self@.dom().contains(#[trigger] self.paths()[i]),
    {
        self.files.lemma_finite();
        assert(self@.dom() =~= self.files@.dom());
        assert forall|i: int| 0 <= i < self.paths().len() implies self@.dom().contains(
            #[trigger] self.paths()[i],
        ) by {
            self.files.lemma_entry(i);
        }
    }

    /// The tree without any file.
    pub fn new() -> (r: Self)
        ensures
            r.wf(),
            r@ == Map::<Seq<char>, Seq<u8>>::empty(),
            r.paths().len() == 0,
    {
        let r = Tree { files: PathMap::new() };
        assert(r@ =~= Map::<Seq<char>, Seq<u8>>::empty());
        r
    }

    /// The number of files.
    pub fn len(&self) -> (n: usize)
        requires
            self.wf(),
        ensures
            n == self.paths().len(),
    {
        self.files.len()
    }

    /// The path of the `i`-th file in ascending order.
    pub fn path_at(&self, i: usize) -> (p: &String)
        requires
            self.wf(),
            i < self.paths().len(),
        ensures
            p@ == self.paths()[i as int],
            self@.dom().contains(p@),
    {
        proof {
            self.files.lemma_entry(i as int);
        }
        self.files.path_at(i)
    }

    /// The content of the `i`-th file in ascending order.
    pub fn content_at(&self, i: usize) -> (c: &Vec<u8>)
        requires
            self.wf(),
            i < self.paths().len(),
        ensures
            self@.dom().contains(self.paths()[i as int]),
            c@ == self@[self.paths()[i as int]],
    {
        proof {
            self.files.lemma_entry(i as int);
        }
        self.files.value_at(i)
    }

    /// Whether the tree has a file under `path`.
    pub fn contains(&self, path: &str) -> (r: bool)
        requires
            self.wf(),
        ensures
            r == self@.dom().contains(path@),
    {
        self.files.contains(path)
    }

    /// The content under `path`.
    pub fn get(&self, path: &str) -> (r: Option<&Vec<u8>>)
        requires
            self.wf(),
        ensures
            r is Some <==> self@.dom().contains(path@),
            r matches Some(c) ==> c@ == self@[path@],
    {
        self.files.get(path)
    }

    /// Sets the content under `path`, replacing what was there.
    pub fn put(&mut self, path: String, content: Vec<u8>)
        requires
            old(self).wf(),
        ensures
            final(self).wf(),
            final(self)@ == old(self)@.insert(path@, content@),
    {
        self.files.put(path, content);
        proof {
            assert(self@ =~= old(self)@.insert(path@, content@));
        }
    }

    /// Removes the file under `path`; says whether there was one.
    pub fn remove(&mut self, path: &str) -> (r: bool)
        requires
            old(self).wf(),
        ensures
            final(self).wf(),
            final(self)@ == old(self)@.remove(path@),
            r == old(self)@.dom().contains(path@),
    {
        let taken = self.files.take(path);
        proof {
            assert(self@ =~= old(self)@.remove(path@));
        }
        taken.is_some()
    }

    /// A copy of the tree.
    pub fn duplicate(&self) -> (r: Self)
        requires
            self.wf(),
        ensures
            r.wf(),
            r@ == self@,
    {
        let mut r = Tree::new();
        let n: usize = self.len();
        let mut i: usize = 0;
        proof {
            self.lemma_paths();
        }
        while i < n
            invariant
                self.wf(),
                r.wf(),
                n == self.paths().len(),
                i <= n,
                ascending(self.paths()),
                forall|p: Seq<char>|
                    r@.dom().contains(p) <==> exists|j: int|
                        0 <= j < i && #[trigger] self.paths()[j] == p,
                forall|p: Seq<char>| #[trigger] r@.dom().contains(p) ==> r@[p] == self@[p],
            decreases n - i,
        {
            let p = self.path_at(i).clone();
            let c = copy_bytes(self.content_at(i));
            let ghost before = r@;
            r.put(p, c);
            proof {
                assert forall|q: Seq<char>|
                    r@.dom().contains(q) <==> exists|j: int|
                        0 <= j < i + 1 && #[trigger] self.paths()[j] == q by {
                    if r@.dom().contains(q) {
                        if q == self.paths()[i as int] {
                        } else {
                            assert(before.dom().contains(q));
                            let j = choose|j: int| 0 <= j < i && #[trigger] self.paths()[j] == q;
                            assert(0 <= j < i + 1 && self.paths()[j] == q);
                        }
                    }
                    if exists|j: int| 0 <= j < i + 1 && #[trigger] self.paths()[j] == q {
                        let j = choose|j: int| 0 <= j < i + 1 && #[trigger] self.paths()[j] == q;
                        if j < i {
                            assert(before.dom().contains(q));
                        }
                    }
                }
            }
            i = i + 1;
        }
        proof {
            assert forall|p: Seq<char>| r@.dom().contains(p) <==> self@.dom().contains(p) by {
                if self@.dom().contains(p) {
                    assert(self.paths().to_set().contains(p));
                    let j = choose|j: int| 0 <= j < self.paths().len() && self.paths()[j] == p;
                    assert(0 <= j < i && self.paths()[j] == p);
                }
                if r@.dom().contains(p) {
                    let j = choose|j: int| 0 <= j < i && #[trigger] self.paths()[j] == p;
                    assert(self@.dom().contains(self.paths()[j]));
                }
            }
            assert(r@ =~= self@);
        }
        r
    }

    /// Two trees with the same files list the same paths.
    pub proof fn lemma_same_paths(&self, other: &Tree)
        requires
            self.wf(),
            other.wf(),
            self@ == other@,
        ensures
            self.paths() == other.paths(),
    {
        self.lemma_paths();
        other.lemma_paths();
        lemma_ascending_unique(self.paths(), other.paths());
    }

    /// Whether the two trees hold the same files.
    pub fn same_as(&self, other: &Tree) -> (r: bool)
        requires
            self.wf(),
            other.wf(),
        ensures
            r == (self@ == other@),
    {
        let n: usize = self.len();
        if other.len() != n {
            proof {
                if self@ == other@ {
                    self.lemma_same_paths(other);
                }
            }
            return false;
        }
        proof {
            self.lemma_paths();
            other.lemma_paths();
        }
        let mut i: usize = 0;
        while i < n
            invariant
                self.wf(),
                other.wf(),
                n == self.paths().len(),
                n == other.paths().len(),
                i <= n,
                forall|j: int|
                    0 <= j < i ==> self.paths()[j] == other.paths()[j] && self@[#[trigger] self.paths()[j]]
                        == other@[self.paths()[j]],
            decreases n - i,
        {
            let same_path = match path_order(self.path_at(i).as_str(), other.path_at(i).as_str()) {
                PathOrder::Same => true,
                _ => false,
            };
            if !same_path || !bytes_equal(self.content_at(i), other.content_at(i)) {
                proof {
                    if self@ == other@ {
                        self.lemma_same_paths(other);
                    }
                }
                return false;
            }
            i = i + 1;
        }
        proof {
            assert forall|p: Seq<char>| self@.dom().contains(p) <==> other@.dom().contains(p) by {
                if self@.dom().contains(p) {
                    assert(self.paths().to_set().contains(p));
                    let j = choose|j: int| 0 <= j < self.paths().len() && self.paths()[j] == p;
                    assert(other.paths()[j] == p);
                    assert(other.paths().to_set().contains(p));
                }
                if other@.dom().contains(p) {
                    assert(other.paths().to_set().contains(p));
                    let j = choose|j: int| 0 <= j < other.paths().len() && other.paths()[j] == p;
                    assert(self.paths()[j] == p);
                    assert(self.paths().to_set().contains(p));
                }
            }
            assert forall|p: Seq<char>| self@.dom().contains(p) implies self@[p] == other@[p] by {
                assert(self.paths().to_set().contains(p));
                let j = choose|j: int| 0 <= j < self.paths().len() && self.paths()[j] == p;
                assert(self@[self.paths()[j]] == other@[self.paths()[j]]);
            }
            assert(self@ =~= other@);
        }
        true
    }
}

} // verus!
