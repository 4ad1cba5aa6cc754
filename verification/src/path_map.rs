//! A map from paths to values, kept in ascending order of the paths.

use vstd::prelude::*;
use crate::path::{ascending, path_lt, path_order, PathOrder, lemma_path_lt_asymmetric, lemma_path_lt_irreflexive, lemma_path_lt_transitive};

verus! {

/// A finite map keyed by path. Its entries are held in ascending path order,
/// so that walking it is deterministic and two maps with the same content
/// hold the same sequence of entries.
pub struct PathMap<V> {
    keys: Vec<String>,
    values: Vec<V>,
}

/// The position of `p` in `paths`, where it occurs.
pub open spec fn slot_of(paths: Seq<Seq<char>>, p: Seq<char>) -> int {
    choose|i: int| 0 <= i < paths.len() && paths[i] == p
}

/// In an ascending sequence every path stands at exactly one position.
pub proof fn lemma_slot_unique(paths: Seq<Seq<char>>, i: int)
    requires
        ascending(paths),
        0 <= i < paths.len(),
    ensures
        slot_of(paths, paths[i]) == i,
        paths.contains(paths[i]),
{
    let j = slot_of(paths, paths[i]);
    if j < i {
        lemma_path_lt_asymmetric(paths[j], paths[i]);
    } else if i < j {
        lemma_path_lt_asymmetric(paths[i], paths[j]);
    }
}

impl<V> PathMap<V> {
    /// The paths of the entries, in the order in which they are held.
    pub closed spec fn paths(&self) -> Seq<Seq<char>> {
        self.keys@.map_values(|s: String| s@)
    }

    /// The values of the entries, in the order of `paths`.
    pub closed spec fn values(&self) -> Seq<V> {
        self.values@
    }

    /// The paths are in strictly ascending order, one value for each.
    pub open spec fn wf(&self) -> bool {
        &&& self.paths().len() == self.values().len()
        &&& ascending(self.paths())
    }

    /// The map that the entries stand for.
    pub open spec fn view(&self) -> Map<Seq<char>, V> {
        Map::new(
            |p: Seq<char>| self.paths().contains(p),
            |p: Seq<char>| self.values()[slot_of(self.paths(), p)],
        )
    }

    /// What the map holds under `p`, if anything.
    pub open spec fn lookup(&self, p: Seq<char>) -> Option<V> {
        if self@.dom().contains(p) {
            Some(self@[p])
        } else {
            None
        }
    }

    /// The entry at position `i` is what the map holds under its path.
    pub proof fn lemma_entry(&self, i: int)
        requires
            self.wf(),
            0 <= i < self.paths().len(),
        ensures
            self@.dom().contains(self.paths()[i]),
            self@[self.paths()[i]] == self.values()[i],
            self.lookup(self.paths()[i]) == Some(self.values()[i]),
    {
        lemma_slot_unique(self.paths(), i);
    }

    /// The map has finitely many entries.
    pub proof fn lemma_finite(&self)
        requires
            self.wf(),
        ensures
            self@.dom().finite(),
            self@.dom() =~= self.paths().to_set(),
    {
        vstd::seq_lib::seq_to_set_is_finite(self.paths());
        assert(self@.dom() =~= self.paths().to_set());
    }

    /// The empty map.
    pub fn new() -> (r: Self)
        ensures
            r.wf(),
            r.paths().len() == 0,
            r@ == Map::<Seq<char>, V>::empty(),
    {
        let r = PathMap { keys: Vec::new(), values: Vec::new() };
        assert(r@ =~= Map::<Seq<char>, V>::empty());
        r
    }

    /// The number of entries.
    pub fn len(&self) -> (n: usize)
        requires
            self.wf(),
        ensures
            n == self.paths().len(),
    {
        self.keys.len()
    }

    /// The path of the entry at position `i`.
    pub fn path_at(&self, i: usize) -> (p: &String)
        requires
            self.wf(),
            i < self.paths().len(),
        ensures
            p@ == self.paths()[i as int],
    {
        &self.keys[i]
    }

    /// The value of the entry at position `i`.
    pub fn value_at(&self, i: usize) -> (v: &V)
        requires
            self.wf(),
            i < self.paths().len(),
        ensures
            *v == self.values()[i as int],
    {
        &self.values[i]
    }

    /// How many paths of the map come before `path`, and whether `path`
    /// itself is in the map.
    fn locate(&self, path: &str) -> (r: (usize, bool))
        requires
            self.wf(),
        ensures
            r.0 <= self.paths().len(),
            forall|j: int| 0 <= j < r.0 ==> path_lt(#[trigger] self.paths()[j], path@),
            r.1 ==> r.0 < self.paths().len() && self.paths()[r.0 as int] == path@,
            !r.1 ==> forall|j: int|
                r.0 <= j < self.paths().len() ==> path_lt(path@, #[trigger] self.paths()[j]),
            r.1 == self@.dom().contains(path@),
    {
        let n: usize = self.keys.len();
        let mut i: usize = 0;
        while i < n
            invariant
                self.wf(),
                n == self.paths().len(),
                i <= n,
                forall|j: int| 0 <= j < i ==> path_lt(#[trigger] self.paths()[j], path@),
            decreases n - i,
        {
            let o = path_order(self.keys[i].as_str(), path);
            match o {
                PathOrder::Before => {
                    i = i + 1;
                },
                PathOrder::Same => {
                    proof {
                        lemma_slot_unique(self.paths(), i as int);
                    }
                    return (i, true);
                },
                PathOrder::After => {
                    proof {
                        let ps = self.paths();
                        assert forall|j: int| i <= j < ps.len() implies path_lt(
                            path@,
                            #[trigger] ps[j],
                        ) by {
                            if i < j {
                                lemma_path_lt_transitive(path@, ps[i as int], ps[j]);
                            }
                        }
                        if ps.contains(path@) {
                            let k = slot_of(ps, path@);
                            lemma_path_lt_irreflexive(path@);
                        }
                    }
                    return (i, false);
                },
            }
        }
        proof {
            let ps = self.paths();
            if ps.contains(path@) {
                let k = slot_of(ps, path@);
                lemma_path_lt_irreflexive(path@);
            }
        }
        (i, false)
    }

    /// Whether the map has an entry under `path`.
    pub fn contains(&self, path: &str) -> (r: bool)
        requires
            self.wf(),
        ensures
            r == self@.dom().contains(path@),
    {
        self.locate(path).1
    }

    /// The position of the entry under `path`.
    pub fn position(&self, path: &str) -> (r: Option<usize>)
        requires
            self.wf(),
        ensures
            r is Some <==> self@.dom().contains(path@),
            r matches Some(i) ==> i < self.paths().len() && self.paths()[i as int] == path@,
    {
        let (i, found) = self.locate(path);
        if found {
            Some(i)
        } else {
            None
        }
    }

    /// The value under `path`.
    pub fn get(&self, path: &str) -> (r: Option<&V>)
        requires
            self.wf(),
        ensures
            r is Some <==> self@.dom().contains(path@),
            r matches Some(v) ==> *v == self@[path@],
    {
        let (i, found) = self.locate(path);
        if found {
            proof {
                self.lemma_entry(i as int);
            }
            Some(&self.values[i])
        } else {
            None
        }
    }

    /// Sets the value under `path`, replacing what was there.
    pub fn put(&mut self, path: String, value: V)
        requires
            old(self).wf(),
        ensures
            final(self).wf(),
            final(self)@ == old(self)@.insert(path@, value),
    {
        let (i, found) = self.locate(path.as_str());
        let ghost old_paths = self.paths();
        let ghost old_values = self.values();
        let ghost old_map = self@;
        if found {
            self.values.set(i, value);
            proof {
                assert forall|p: Seq<char>| self@.dom().contains(p) implies #[trigger] self@[p]
                    == old_map.insert(path@, value)[p] by {
                    let k = slot_of(old_paths, p);
                    lemma_slot_unique(old_paths, k);
                    lemma_slot_unique(old_paths, i as int);
                }
                assert(self@ =~= old_map.insert(path@, value));
            }
        } else {
            self.keys.insert(i, path);
            self.values.insert(i, value);
            proof {
                let ps = self.paths();
                let vs = self.values();
                assert(ps =~= old_paths.insert(i as int, path@));
                assert(vs =~= old_values.insert(i as int, value));
                assert forall|a: int, b: int| 0 <= a < b < ps.len() implies path_lt(
                    #[trigger] ps[a],
                    #[trigger] ps[b],
                ) by {
                    if a < i && b > i {
                        assert(ps[b] == old_paths[b - 1]);
                    } else if a > i {
                        assert(ps[a] == old_paths[a - 1]);
                        assert(ps[b] == old_paths[b - 1]);
                    } else if a == i {
                        assert(ps[b] == old_paths[b - 1]);
                    }
                }
                assert forall|p: Seq<char>| ps.contains(p) <==> (p == path@ || old_paths.contains(
                    p,
                )) by {
                    if ps.contains(p) {
                        let k = slot_of(ps, p);
                        if k < i {
                            assert(old_paths[k] == p);
                        } else if k > i {
                            assert(old_paths[k - 1] == p);
                        }
                    }
                    if p == path@ {
                        assert(ps[i as int] == p);
                    } else if old_paths.contains(p) {
                        let k = slot_of(old_paths, p);
                        if k < i {
                            assert(ps[k] == p);
                        } else {
                            assert(ps[k + 1] == p);
                        }
                    }
                }
                assert forall|p: Seq<char>| ps.contains(p) implies vs[slot_of(ps, p)]
                    == old_map.insert(path@, value)[p] by {
                    let k = slot_of(ps, p);
                    if p == path@ {
                        lemma_slot_unique(ps, i as int);
                    } else {
                        let j = slot_of(old_paths, p);
                        lemma_slot_unique(old_paths, j);
                        if j < i {
                            lemma_slot_unique(ps, j);
                        } else {
                            lemma_slot_unique(ps, j + 1);
                        }
                    }
                }
                assert(self@ =~= old_map.insert(path@, value));
            }
        }
    }

    /// Removes the entry under `path` and returns its value.
    pub fn take(&mut self, path: &str) -> (r: Option<V>)
        requires
            old(self).wf(),
        ensures
            final(self).wf(),
            final(self)@ == old(self)@.remove(path@),
            r == old(self).lookup(path@),
    {
        let (i, found) = self.locate(path);
        let ghost old_paths = self.paths();
        let ghost old_values = self.values();
        let ghost old_map = self@;
        if found {
            proof {
                self.lemma_entry(i as int);
            }
            let _ = self.keys.remove(i);
            let v = self.values.remove(i);
            proof {
                let ps = self.paths();
                let vs = self.values();
                assert(ps =~= old_paths.remove(i as int));
                assert(vs =~= old_values.remove(i as int));
                assert forall|a: int, b: int| 0 <= a < b < ps.len() implies path_lt(
                    #[trigger] ps[a],
                    #[trigger] ps[b],
                ) by {
                    let a0 = if a < i { a } else { a + 1 };
                    let b0 = if b < i { b } else { b + 1 };
                    assert(ps[a] == old_paths[a0]);
                    assert(ps[b] == old_paths[b0]);
                }
                assert forall|p: Seq<char>| ps.contains(p) <==> (p != path@ && old_paths.contains(
                    p,
                )) by {
                    if ps.contains(p) {
                        let k = slot_of(ps, p);
                        let k0 = if k < i { k } else { k + 1 };
                        assert(old_paths[k0] == p);
                        lemma_slot_unique(old_paths, k0);
                        lemma_slot_unique(old_paths, i as int);
                    }
                    if p != path@ && old_paths.contains(p) {
                        let k = slot_of(old_paths, p);
                        if k < i {
                            assert(ps[k] == p);
                        } else {
                            assert(ps[k - 1] == p);
                        }
                    }
                }
                assert forall|p: Seq<char>| ps.contains(p) implies vs[slot_of(ps, p)]
                    == old_map[p] by {
                    let j = slot_of(old_paths, p);
                    lemma_slot_unique(old_paths, j);
                    if j < i {
                        lemma_slot_unique(ps, j);
                    } else {
                        lemma_slot_unique(ps, j - 1);
                    }
                }
                assert(self@ =~= old_map.remove(path@));
            }
            Some(v)
        } else {
            proof {
                assert(self@ =~= old_map.remove(path@));
            }
            None
        }
    }
}

} // verus!
