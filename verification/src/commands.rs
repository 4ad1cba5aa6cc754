//! The commands of the application that need no outside service: the note
//! store and the resolution of conflicts.

use vstd::prelude::*;
use vstd::string::StringExecFns;
use crate::error::SyncError;
use crate::path::same_text;
use crate::index::{resolved_content, with_content, Resolution};
use crate::repository::Repository;

verus! {

/// A note.
pub struct Note {
    pub id: String,
    pub title: String,
    pub content: String,
    pub created_at: String,
    pub updated_at: String,
}

/// What a note holds, as plain values.
pub struct NoteView {
    pub id: Seq<char>,
    pub title: Seq<char>,
    pub content: Seq<char>,
    pub created_at: Seq<char>,
    pub updated_at: Seq<char>,
}

impl View for Note {
    type V = NoteView;

    open spec fn view(&self) -> NoteView {
        NoteView {
            id: self.id@,
            title: self.title@,
            content: self.content@,
            created_at: self.created_at@,
            updated_at: self.updated_at@,
        }
    }
}

impl Note {
    /// A copy of the note.
    pub fn duplicate(&self) -> (r: Self)
        ensures
            r@ == self@,
    {
        Note {
            id: self.id.clone(),
            title: self.title.clone(),
            content: self.content.clone(),
            created_at: self.created_at.clone(),
            updated_at: self.updated_at.clone(),
        }
    }
}

/// The notes of a sequence, by their id.
pub open spec fn notes_by_id(notes: Seq<NoteView>) -> Map<Seq<char>, NoteView> {
    Map::new(
        |id: Seq<char>| exists|i: int| 0 <= i < notes.len() && (#[trigger] notes[i]).id == id,
        |id: Seq<char>| notes[choose|i: int| 0 <= i < notes.len() && (#[trigger] notes[i]).id == id],
    )
}

/// No two notes of the sequence share an id.
pub open spec fn distinct_notes(notes: Seq<NoteView>) -> bool {
    forall|i: int, j: int|
        0 <= i < j < notes.len() ==> (#[trigger] notes[i]).id != (#[trigger] notes[j]).id
}

/// The notes of the application, one for each id: the last one saved under
/// it.
pub struct NotesState {
    notes: Vec<Note>,
}

impl NotesState {
    /// The notes in the order in which their ids were first saved.
    pub closed spec fn listed(&self) -> Seq<NoteView> {
        self.notes@.map_values(|n: Note| n@)
    }

    /// No id occurs twice.
    pub closed spec fn wf(&self) -> bool {
        distinct_notes(self.listed())
    }

    /// The notes by id.
    pub open spec fn view(&self) -> Map<Seq<char>, NoteView> {
        notes_by_id(self.listed())
    }

    /// The listed notes are the notes of the store, each once.
    pub proof fn lemma_listed(&self)
        requires
            self.wf(),
        ensures
            distinct_notes(self.listed()),
            forall|i: int|
                0 <= i < self.listed().len() ==> self@.dom().contains(
                    (#[trigger] self.listed()[i]).id,
                ) && self@[self.listed()[i].id] == self.listed()[i],
    {
        let notes = self.listed();
        assert forall|i: int| 0 <= i < notes.len() implies self@.dom().contains(
            (#[trigger] notes[i]).id,
        ) && self@[notes[i].id] == notes[i] by {
            let j = choose|j: int| 0 <= j < notes.len() && (#[trigger] notes[j]).id == notes[i].id;
            if j < i {
                assert(notes[j].id != notes[i].id);
            }
            if i < j {
                assert(notes[i].id != notes[j].id);
            }
        }
    }

    /// A store without notes.
    pub fn new() -> (r: Self)
        ensures
            r.wf(),
            r.listed().len() == 0,
            r@ == Map::<Seq<char>, NoteView>::empty(),
    {
        let r = NotesState { notes: Vec::new() };
        assert(r@ =~= Map::<Seq<char>, NoteView>::empty());
        r
    }

    /// The position of the note with the id given.
    fn position(&self, id: &str) -> (r: Option<usize>)
        requires
            self.wf(),
        ensures
            r is Some <==> self@.dom().contains(id@),
            r matches Some(i) ==> i < self.listed().len() && self.listed()[i as int].id == id@,
    {
        let n: usize = self.notes.len();
        let mut i: usize = 0;
        while i < n
            invariant
                n == self.listed().len(),
                i <= n,
                forall|j: int| 0 <= j < i ==> (#[trigger] self.listed()[j]).id != id@,
            decreases n - i,
        {
            if same_text(self.notes[i].id.as_str(), id) {
                assert(self.listed()[i as int].id == id@);
                return Some(i);
            }
            i = i + 1;
        }
        None
    }
}

/// The greeting for `name`.
pub fn greet(name: &str) -> (r: String)
    ensures
        r@ == "Hello, "@ + name@ + "! You've been greeted from Rust!"@,
{
    String::from_str("Hello, ").concat(name).concat("! You've been greeted from Rust!")
}

/// Saves `note` under its id, in place of a note saved under it before.
pub fn save_note(note: Note, store: &mut NotesState) -> (r: Result<(), String>)
    requires
        old(store).wf(),
    ensures
        r is Ok,
        final(store).wf(),
        final(store)@ == old(store)@.insert(note@.id, note@),
{
    let ghost before = store.listed();
    let ghost nv = note@;
    match store.position(note.id.as_str()) {
        Some(i) => {
            store.notes.set(i, note);
            proof {
                let after = store.listed();
                assert(after =~= before.update(i as int, nv));
                assert forall|a: int, b: int| 0 <= a < b < after.len() implies (
                #[trigger] after[a]).id != (#[trigger] after[b]).id by {
                    assert(after[a].id == before[a].id);
                    assert(after[b].id == before[b].id);
                }
                store.lemma_listed();
                assert forall|id: Seq<char>| store@.dom().contains(id) <==> old(store)@.insert(
                    nv.id,
                    nv,
                ).dom().contains(id) by {
                    if store@.dom().contains(id) {
                        let w = choose|w: int| 0 <= w < after.len() && (#[trigger] after[w]).id == id;
                        assert(before[w].id == id);
                    }
                    if old(store)@.dom().contains(id) {
                        let w = choose|w: int|
                            0 <= w < before.len() && (#[trigger] before[w]).id == id;
                        assert(after[w].id == id);
                    }
                    if id == nv.id {
                        assert(after[i as int].id == id);
                    }
                }
                assert forall|id: Seq<char>| store@.dom().contains(id) implies store@[id] == old(
                    store,
                )@.insert(nv.id, nv)[id] by {
                    let w = choose|w: int| 0 <= w < after.len() && (#[trigger] after[w]).id == id;
                    assert(store@[after[w].id] == after[w]);
                    if id != nv.id {
                        assert(before[w].id == id);
                        old(store).lemma_listed();
                        assert(old(store)@[before[w].id] == before[w]);
                    } else {
                        if w < i {
                            assert(after[w].id != after[i as int].id);
                        }
                        if i < w {
                            assert(after[i as int].id != after[w].id);
                        }
                    }
                }
                assert(store@ =~= old(store)@.insert(nv.id, nv));
            }
        },
        None => {
            store.notes.push(note);
            proof {
                let after = store.listed();
                assert(after =~= before.push(nv));
                assert forall|a: int, b: int| 0 <= a < b < after.len() implies (
                #[trigger] after[a]).id != (#[trigger] after[b]).id by {
                    if b == before.len() {
                        assert(before[a].id != nv.id);
                    }
                }
                store.lemma_listed();
                old(store).lemma_listed();
                assert forall|id: Seq<char>| store@.dom().contains(id) <==> old(store)@.insert(
                    nv.id,
                    nv,
                ).dom().contains(id) by {
                    if store@.dom().contains(id) {
                        let w = choose|w: int| 0 <= w < after.len() && (#[trigger] after[w]).id == id;
                        if w < before.len() {
                            assert(before[w].id == id);
                        }
                    }
                    if old(store)@.dom().contains(id) {
                        let w = choose|w: int|
                            0 <= w < before.len() && (#[trigger] before[w]).id == id;
                        assert(after[w].id == id);
                    }
                    if id == nv.id {
                        assert(after[before.len() as int].id == id);
                    }
                }
                assert forall|id: Seq<char>| store@.dom().contains(id) implies store@[id] == old(
                    store,
                )@.insert(nv.id, nv)[id] by {
                    let w = choose|w: int| 0 <= w < after.len() && (#[trigger] after[w]).id == id;
                    assert(store@[after[w].id] == after[w]);
                    if w < before.len() {
                        assert(old(store)@[before[w].id] == before[w]);
                    }
                }
                assert(store@ =~= old(store)@.insert(nv.id, nv));
            }
        },
    }
    Ok(())
}

/// The note saved under `note_id`, if there is one.
pub fn load_note(note_id: String, store: &NotesState) -> (r: Result<Option<Note>, String>)
    requires
        store.wf(),
    ensures
        r matches Ok(found) && (found is Some <==> store@.dom().contains(note_id@)) && (
        found matches Some(n) ==> n@ == store@[note_id@]),
{
    match store.position(note_id.as_str()) {
        Some(i) => {
            proof {
                store.lemma_listed();
            }
            Ok(Some(store.notes[i].duplicate()))
        },
        None => Ok(None),
    }
}

/// All the notes, in the order in which their ids were first saved.
pub fn list_notes(store: &NotesState) -> (r: Result<Vec<Note>, String>)
    requires
        store.wf(),
    ensures
        r matches Ok(notes) && notes@.map_values(|n: Note| n@) == store.listed(),
{
    let mut out: Vec<Note> = Vec::new();
    let n: usize = store.notes.len();
    let mut i: usize = 0;
    while i < n
        invariant
            n == store.listed().len(),
            i <= n,
            out@.map_values(|n: Note| n@) =~= store.listed().take(i as int),
        decreases n - i,
    {
        let ghost before = out@;
        let copy = store.notes[i].duplicate();
        out.push(copy);
        proof {
            assert(out@.map_values(|n: Note| n@) =~= before.map_values(|n: Note| n@).push(
                store.listed()[i as int],
            ));
        }
        i = i + 1;
    }
    proof {
        assert(store.listed().take(n as int) =~= store.listed());
    }
    Ok(out)
}

/// Deletes the note saved under `note_id`, if there is one.
pub fn delete_note(note_id: String, store: &mut NotesState) -> (r: Result<(), String>)
    requires
        old(store).wf(),
    ensures
        r is Ok,
        final(store).wf(),
        final(store)@ == old(store)@.remove(note_id@),
{
    let ghost before = store.listed();
    match store.position(note_id.as_str()) {
        Some(i) => {
            let _ = store.notes.remove(i);
            proof {
                let after = store.listed();
                assert(after =~= before.remove(i as int));
                assert forall|a: int, b: int| 0 <= a < b < after.len() implies (
                #[trigger] after[a]).id != (#[trigger] after[b]).id by {
                    let a0 = if a < i { a } else { a + 1 };
                    let b0 = if b < i { b } else { b + 1 };
                    assert(after[a] == before[a0]);
                    assert(after[b] == before[b0]);
                }
                store.lemma_listed();
                old(store).lemma_listed();
                assert forall|id: Seq<char>| store@.dom().contains(id) <==> old(store)@.remove(
                    note_id@,
                ).dom().contains(id) by {
                    if store@.dom().contains(id) {
                        let w = choose|w: int| 0 <= w < after.len() && (#[trigger] after[w]).id == id;
                        let w0 = if w < i { w } else { w + 1 };
                        assert(before[w0].id == id);
                        if w0 < i {
                            assert(before[w0].id != before[i as int].id);
                        } else {
                            assert(before[i as int].id != before[w0].id);
                        }
                    }
                    if old(store)@.dom().contains(id) && id != note_id@ {
                        let w = choose|w: int|
                            0 <= w < before.len() && (#[trigger] before[w]).id == id;
                        if w < i {
                            assert(after[w].id == id);
                        } else {
                            assert(after[w - 1].id == id);
                        }
                    }
                }
                assert forall|id: Seq<char>| store@.dom().contains(id) implies store@[id] == old(
                    store,
                )@.remove(note_id@)[id] by {
                    let w = choose|w: int| 0 <= w < after.len() && (#[trigger] after[w]).id == id;
                    let w0 = if w < i { w } else { w + 1 };
                    assert(store@[after[w].id] == after[w]);
                    assert(old(store)@[before[w0].id] == before[w0]);
                }
                assert(store@ =~= old(store)@.remove(note_id@));
            }
        },
        None => {
            proof {
                assert(store@ =~= old(store)@.remove(note_id@));
            }
        },
    }
    Ok(())
}

/// The caller's choice for a conflicted note: which note, which way
/// (`"keep_mine"`, `"use_theirs"` or `"merge"`), and for `"merge"` the
/// content that settles it.
pub struct ConflictResolution {
    pub note_id: String,
    pub resolution_type: String,
    pub content: Option<String>,
}

impl ConflictResolution {
    /// The bytes of the content supplied, if any.
    pub open spec fn supplied(&self) -> Option<Seq<u8>> {
        match self.content {
            Some(c) => Some(vstd::utf8::encode_utf8(c@)),
            None => None,
        }
    }

    /// The choice cannot be read: its way is none of the three, or it is
    /// `"merge"` without a content.
    pub open spec fn unreadable(&self) -> bool {
        &&& self.resolution_type@ != "keep_mine"@
        &&& self.resolution_type@ != "use_theirs"@
        &&& !(self.resolution_type@ == "merge"@ && self.content is Some)
    }

    /// The resolution that the choice stands for.
    pub fn resolution(&self) -> (r: Option<Resolution>)
        ensures
            r is None <==> self.unreadable(),
            r matches Some(Resolution::UseLocal) ==> self.resolution_type@ == "keep_mine"@,
            r matches Some(Resolution::UseRemote) ==> self.resolution_type@ == "use_theirs"@,
            r matches Some(Resolution::Content(c)) ==> self.resolution_type@ == "merge"@
                && self.supplied() == Some(c@),
    {
        proof {
            reveal_strlit("keep_mine");
            reveal_strlit("use_theirs");
            reveal_strlit("merge");
        }
        if same_text(self.resolution_type.as_str(), "keep_mine") {
            Some(Resolution::UseLocal)
        } else if same_text(self.resolution_type.as_str(), "use_theirs") {
            Some(Resolution::UseRemote)
        } else if same_text(self.resolution_type.as_str(), "merge") {
            match &self.content {
                Some(c) => Some(Resolution::Content(c.as_str().as_bytes_vec())),
                None => None,
            }
        } else {
            None
        }
    }
}

/// Settles the conflict on the note named in `resolution` as it says.
/// `NotFoundError`, and no change, where the choice cannot be read or the
/// note is not conflicted.
pub fn resolve_conflict(repo: &mut Repository, resolution: &ConflictResolution) -> (r: Result<
    (),
    SyncError,
>)
    requires
        old(repo).wf(),
    ensures
        final(repo).wf(),
        r is Ok <==> !resolution.unreadable() && old(repo).index.conflicts().dom().contains(
            resolution.note_id@,
        ),
        r matches Err(e) ==> e == SyncError::NotFoundError && final(repo).index.staged() == old(
            repo,
        ).index.staged() && final(repo).index.conflicts() == old(repo).index.conflicts(),
        r is Ok ==> {
            let sides = old(repo).index.conflicts()[resolution.note_id@];
            let chosen = if resolution.resolution_type@ == "keep_mine"@ {
                sides.ours
            } else if resolution.resolution_type@ == "use_theirs"@ {
                sides.theirs
            } else {
                resolution.supplied()
            };
            &&& final(repo).index.conflicts() == old(repo).index.conflicts().remove(
                resolution.note_id@,
            )
            &&& final(repo).index.staged() == with_content(
                old(repo).index.staged(),
                resolution.note_id@,
                chosen,
            )
        },
        final(repo).path == old(repo).path,
        final(repo).history == old(repo).history,
        final(repo).head == old(repo).head,
        final(repo).remote_head == old(repo).remote_head,
        final(repo).merge_head == old(repo).merge_head,
{
    proof {
        reveal_strlit("keep_mine");
        reveal_strlit("use_theirs");
        reveal_strlit("merge");
    }
    match resolution.resolution() {
        Some(choice) => {
            proof {
                let sides = repo.index.conflicts()[resolution.note_id@];
                assert("keep_mine"@.len() == 9);
                assert("use_theirs"@.len() == 10);
                assert("merge"@.len() == 5);
                assert(choice is UseLocal ==> resolved_content(sides, choice) == sides.ours);
                assert(choice is UseRemote ==> resolved_content(sides, choice) == sides.theirs);
                assert(choice is Content ==> resolved_content(sides, choice)
                    == resolution.supplied());
            }
            repo.resolve_conflict(resolution.note_id.as_str(), choice)
        },
        None => Err(SyncError::NotFoundError),
    }
}

} // verus!
