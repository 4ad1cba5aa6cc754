//! The three-way merge of two trees against their common base.

use vstd::prelude::*;
use crate::content::{content_ref_view, copy_content, same_content};
use crate::error::SyncError;
use crate::history::{has_id, lemma_slot, lemma_slot_of_held, slot_of_id, History};
use crate::index::{ConflictSides, SidesView, WorkingIndex};
use crate::merge_base::{
    lemma_merge_base_is_common_ancestor, merge_base, merge_base_outcome, merge_base_slot,
};
use crate::revision::{texts, RevisionId};
use crate::tree::Tree;

verus! {

/// What the merge does with one path.
pub enum PathMerge {
    /// The path gets this content, or no file.
    Take(Option<Seq<u8>>),
    /// The two sides changed the path in different ways.
    Conflict,
}

/// The merge of one path, from its versions in the base and on the two
/// sides. Sides that agree give their common version; a side that left the
/// base version alone yields to the other; otherwise the path is conflicted.
pub open spec fn merge_path(base: Option<Seq<u8>>, ours: Option<Seq<u8>>, theirs: Option<Seq<u8>>) -> PathMerge {
    if ours == theirs {
        PathMerge::Take(ours)
    } else if ours == base {
        PathMerge::Take(theirs)
    } else if theirs == base {
        PathMerge::Take(ours)
    } else {
        PathMerge::Conflict
    }
}

/// The content of `tree` under `p`, if any.
pub open spec fn content_in(tree: Map<Seq<char>, Seq<u8>>, p: Seq<char>) -> Option<Seq<u8>> {
    if tree.dom().contains(p) {
        Some(tree[p])
    } else {
        None
    }
}

/// The merge of path `p` of three trees.
pub open spec fn merge_at(
    base: Map<Seq<char>, Seq<u8>>,
    ours: Map<Seq<char>, Seq<u8>>,
    theirs: Map<Seq<char>, Seq<u8>>,
    p: Seq<char>,
) -> PathMerge {
    merge_path(content_in(base, p), content_in(ours, p), content_in(theirs, p))
}

/// The files that the merge settles.
pub open spec fn merged_files(
    base: Map<Seq<char>, Seq<u8>>,
    ours: Map<Seq<char>, Seq<u8>>,
    theirs: Map<Seq<char>, Seq<u8>>,
) -> Map<Seq<char>, Seq<u8>> {
    Map::new(
        |p: Seq<char>| merge_at(base, ours, theirs, p) matches PathMerge::Take(Some(_)),
        |p: Seq<char>| merge_at(base, ours, theirs, p)->Take_0->Some_0,
    )
}

/// The paths that the merge leaves conflicted, with their three versions.
pub open spec fn merged_conflicts(
    base: Map<Seq<char>, Seq<u8>>,
    ours: Map<Seq<char>, Seq<u8>>,
    theirs: Map<Seq<char>, Seq<u8>>,
) -> Map<Seq<char>, SidesView> {
    Map::new(
        |p: Seq<char>| merge_at(base, ours, theirs, p) is Conflict,
        |p: Seq<char>|
            SidesView {
                base: content_in(base, p),
                ours: content_in(ours, p),
                theirs: content_in(theirs, p),
            },
    )
}

/// The index holds for `p` what the merge of the three trees gives it.
pub open spec fn agrees_at(
    index: &WorkingIndex,
    base: Map<Seq<char>, Seq<u8>>,
    ours: Map<Seq<char>, Seq<u8>>,
    theirs: Map<Seq<char>, Seq<u8>>,
    p: Seq<char>,
) -> bool {
    &&& content_in(index.staged(), p) == content_in(merged_files(base, ours, theirs), p)
    &&& index.conflicts().dom().contains(p) == merged_conflicts(base, ours, theirs).dom().contains(
        p,
    )
    &&& index.conflicts().dom().contains(p) ==> index.conflicts()[p] == merged_conflicts(
        base,
        ours,
        theirs,
    )[p]
}

/// Merges every path of `source` into `index`.
fn merge_paths_of(source: &Tree, base: &Tree, ours: &Tree, theirs: &Tree, index: &mut WorkingIndex)
    requires
        source.wf(),
        base.wf(),
        ours.wf(),
        theirs.wf(),
        old(index).wf(),
        forall|p: Seq<char>|
            old(index).staged().dom().contains(p) || old(index).conflicts().dom().contains(p)
                ==> agrees_at(old(index), base@, ours@, theirs@, p),
    ensures
        final(index).wf(),
        forall|p: Seq<char>|
            final(index).staged().dom().contains(p) || final(index).conflicts().dom().contains(p)
                ==> agrees_at(final(index), base@, ours@, theirs@, p),
        forall|p: Seq<char>|
            agrees_at(old(index), base@, ours@, theirs@, p) ==> agrees_at(
                final(index),
                base@,
                ours@,
                theirs@,
                p,
            ),
        forall|p: Seq<char>|
            source@.dom().contains(p) ==> agrees_at(final(index), base@, ours@, theirs@, p),
{
    let n: usize = source.len();
    let mut i: usize = 0;
    proof {
        source.lemma_paths();
    }
    while i < n
        invariant
            source.wf(),
            base.wf(),
            ours.wf(),
            theirs.wf(),
            index.wf(),
            n == source.paths().len(),
            i <= n,
            source@.dom() =~= source.paths().to_set(),
            forall|p: Seq<char>|
                index.staged().dom().contains(p) || index.conflicts().dom().contains(p)
                    ==> agrees_at(index, base@, ours@, theirs@, p),
            forall|p: Seq<char>|
                agrees_at(old(index), base@, ours@, theirs@, p) ==> agrees_at(
                    index,
                    base@,
                    ours@,
                    theirs@,
                    p,
                ),
            forall|j: int|
                0 <= j < i ==> agrees_at(index, base@, ours@, theirs@, #[trigger] source.paths()[j]),
        decreases n - i,
    {
        let path = source.path_at(i);
        let b = base.get(path.as_str());
        let o = ours.get(path.as_str());
        let t = theirs.get(path.as_str());
        let ghost before = *index;
        let ghost q = path@;
        proof {
            assert(content_ref_view(b) == content_in(base@, q));
            assert(content_ref_view(o) == content_in(ours@, q));
            assert(content_ref_view(t) == content_in(theirs@, q));
        }
        if same_content(o, t) {
            index.settle(path.clone(), copy_content(o));
        } else if same_content(o, b) {
            index.settle(path.clone(), copy_content(t));
        } else if same_content(t, b) {
            index.settle(path.clone(), copy_content(o));
        } else {
            let sides = ConflictSides {
                base: copy_content(b),
                ours: copy_content(o),
                theirs: copy_content(t),
            };
            index.mark_conflict(path.clone(), sides);
        }
        proof {
            assert(agrees_at(index, base@, ours@, theirs@, q));
            assert forall|p: Seq<char>| p != q implies (agrees_at(&before, base@, ours@, theirs@, p)
                == agrees_at(index, base@, ours@, theirs@, p)) by {
                assert(content_in(index.staged(), p) == content_in(before.staged(), p));
            }
            assert forall|p: Seq<char>|
                index.staged().dom().contains(p) || index.conflicts().dom().contains(p) implies agrees_at(
                index,
                base@,
                ours@,
                theirs@,
                p,
            ) by {
                if p != q {
                    assert(before.staged().dom().contains(p) || before.conflicts().dom().contains(
                        p,
                    ));
                }
            }
            assert forall|j: int| 0 <= j < i + 1 implies agrees_at(
                index,
                base@,
                ours@,
                theirs@,
                #[trigger] source.paths()[j],
            ) by {
                if source.paths()[j] != q {
                    assert(agrees_at(&before, base@, ours@, theirs@, source.paths()[j]));
                }
            }
        }
        i = i + 1;
    }
    proof {
        assert forall|p: Seq<char>| source@.dom().contains(p) implies agrees_at(
            index,
            base@,
            ours@,
            theirs@,
            p,
        ) by {
            assert(source.paths().to_set().contains(p));
            let j = choose|j: int| 0 <= j < source.paths().len() && source.paths()[j] == p;
            assert(agrees_at(index, base@, ours@, theirs@, source.paths()[j]));
        }
    }
}

/// The three-way merge of `ours` and `theirs` against `base`. A path that
/// only one side changed takes that side's version; a path on which both
/// sides agree takes it once; a path that both changed in different ways is
/// conflicted and keeps its three versions. Conflicts are part of the
/// result, not a failure.
pub fn merge_trees(base: &Tree, ours: &Tree, theirs: &Tree) -> (index: WorkingIndex)
    requires
        base.wf(),
        ours.wf(),
        theirs.wf(),
    ensures
        index.wf(),
        index.staged() == merged_files(base@, ours@, theirs@),
        index.conflicts() == merged_conflicts(base@, ours@, theirs@),
{
    let mut index = WorkingIndex::new();
    merge_paths_of(base, base, ours, theirs, &mut index);
    merge_paths_of(ours, base, ours, theirs, &mut index);
    merge_paths_of(theirs, base, ours, theirs, &mut index);
    proof {
        let mf = merged_files(base@, ours@, theirs@);
        let mc = merged_conflicts(base@, ours@, theirs@);
        assert forall|p: Seq<char>| agrees_at(&index, base@, ours@, theirs@, p) by {
            if !(base@.dom().contains(p) || ours@.dom().contains(p) || theirs@.dom().contains(p)) {
                assert(merge_at(base@, ours@, theirs@, p) == PathMerge::Take(None));
                if index.staged().dom().contains(p) || index.conflicts().dom().contains(p) {
                    assert(agrees_at(&index, base@, ours@, theirs@, p));
                }
            }
        }
        assert forall|p: Seq<char>| index.staged().dom().contains(p) == mf.dom().contains(p) by {
            assert(agrees_at(&index, base@, ours@, theirs@, p));
        }
        assert forall|p: Seq<char>| index.staged().dom().contains(p) implies index.staged()[p]
            == mf[p] by {
            assert(agrees_at(&index, base@, ours@, theirs@, p));
        }
        assert(index.staged() =~= mf);
        assert forall|p: Seq<char>| index.conflicts().dom().contains(p) == mc.dom().contains(p) by {
            assert(agrees_at(&index, base@, ours@, theirs@, p));
        }
        assert forall|p: Seq<char>| index.conflicts().dom().contains(p) implies index.conflicts()[p]
            == mc[p] by {
            assert(agrees_at(&index, base@, ours@, theirs@, p));
        }
        assert(index.conflicts() =~= mc);
    }
    index
}

/// The result of merging two heads: the base that was used and an index
/// that holds the merged files and the conflicts, whose paths are listed in
/// ascending order.
pub struct MergeOutcome {
    pub base: RevisionId,
    pub index: WorkingIndex,
    pub conflicted_paths: Vec<String>,
}

/// The paths of the conflicts of `index`, in ascending order.
pub fn conflicted_paths_of(index: &WorkingIndex) -> (r: Vec<String>)
    requires
        index.wf(),
    ensures
        texts(r@) == index.conflict_paths(),
{
    let entries = index.list_conflicts();
    let mut r: Vec<String> = Vec::new();
    let n: usize = entries.len();
    let mut i: usize = 0;
    while i < n
        invariant
            n == entries@.len(),
            n == index.conflict_paths().len(),
            i <= n,
            forall|j: int| 0 <= j < n ==> (#[trigger] entries@[j]).path@ == index.conflict_paths()[j],
            texts(r@) =~= index.conflict_paths().take(i as int),
        decreases n - i,
    {
        let ghost before = r@;
        let p = entries[i].path.clone();
        r.push(p);
        proof {
            assert(texts(r@) =~= texts(before).push(entries@[i as int].path@));
        }
        i = i + 1;
    }
    proof {
        assert(index.conflict_paths().take(n as int) =~= index.conflict_paths());
    }
    r
}

/// The three-way merge of the trees of two heads against the tree of their
/// merge base. `NotFoundError` if a head is not held,
/// `MergeBaseNotFoundError` if the heads have no revision in common.
/// Conflicts do not make the merge fail: the outcome lists them.
pub fn merge(history: &History, local_head: &str, remote_head: &str) -> (r: Result<
    MergeOutcome,
    SyncError,
>)
    requires
        history.wf(),
    ensures
        r is Ok <==> merge_base_outcome(history@, local_head@, remote_head@) is Ok,
        r matches Err(e) ==> merge_base_outcome(history@, local_head@, remote_head@) == Err::<
            Seq<char>,
            SyncError,
        >(e),
        r matches Ok(out) ==> {
            let revs = history@;
            let base = revs[slot_of_id(revs, out.base@)].tree;
            let ours = revs[slot_of_id(revs, local_head@)].tree;
            let theirs = revs[slot_of_id(revs, remote_head@)].tree;
            &&& merge_base_outcome(revs, local_head@, remote_head@) == Ok::<Seq<char>, SyncError>(
                out.base@,
            )
            &&& has_id(revs, out.base@)
            &&& out.index.wf()
            &&& out.index.staged() == merged_files(base, ours, theirs)
            &&& out.index.conflicts() == merged_conflicts(base, ours, theirs)
            &&& texts(out.conflicted_paths@) == out.index.conflict_paths()
        },
{
    let base_id = match merge_base(history, local_head, remote_head) {
        Ok(id) => id,
        Err(e) => {
            return Err(e);
        },
    };
    proof {
        history.lemma_wf();
        let revs = history@;
        lemma_slot_of_held(revs, local_head@);
        lemma_slot_of_held(revs, remote_head@);
        let x = merge_base_slot(revs, slot_of_id(revs, local_head@), slot_of_id(revs, remote_head@))->Some_0;
        lemma_merge_base_is_common_ancestor(
            revs,
            slot_of_id(revs, local_head@),
            slot_of_id(revs, remote_head@),
        );
        lemma_slot(revs, x);
    }
    let base = match history.get(base_id.as_str()) {
        Some(b) => b,
        None => {
            return Err(SyncError::StorageError);
        },
    };
    let ours = match history.get(local_head) {
        Some(o) => o,
        None => {
            return Err(SyncError::NotFoundError);
        },
    };
    let theirs = match history.get(remote_head) {
        Some(t) => t,
        None => {
            return Err(SyncError::NotFoundError);
        },
    };
    let index = merge_trees(&base.tree, &ours.tree, &theirs.tree);
    let conflicted_paths = conflicted_paths_of(&index);
    Ok(MergeOutcome { base: base_id, index, conflicted_paths })
}

} // verus!
