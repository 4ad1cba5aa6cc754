use gimark::ancestry::MergeClass;
use gimark::commands::{
    delete_note, greet, list_notes, load_note, resolve_conflict, save_note, ConflictResolution, Note,
    NotesState,
};
use gimark::error::SyncError;
use gimark::index::{ConflictSides, Resolution};
use gimark::phase::{advance, phase_after_analysis, SyncEvent, SyncPhase};
use gimark::sync::PullOutcome;
use gimark::repository::Repository;

fn note(id: &str, title: &str) -> Note {
    Note {
        id: id.to_string(),
        title: title.to_string(),
        content: format!("content of {}", title),
        created_at: "2024-01-01".to_string(),
        updated_at: "2024-01-02".to_string(),
    }
}

fn titles(store: &NotesState) -> Vec<String> {
    list_notes(store).unwrap().into_iter().map(|n| n.title).collect()
}

#[test]
fn greet_names_the_caller() {
    assert_eq!(greet("Ada"), "Hello, Ada! You've been greeted from Rust!");
    assert_eq!(greet(""), "Hello, ! You've been greeted from Rust!");
}

#[test]
fn a_saved_note_can_be_loaded() {
    let mut store = NotesState::new();
    assert_eq!(save_note(note("1", "one"), &mut store), Ok(()));
    let loaded = load_note("1".to_string(), &store).unwrap().unwrap();
    assert_eq!(loaded.id, "1");
    assert_eq!(loaded.title, "one");
    assert_eq!(loaded.content, "content of one");
    assert_eq!(loaded.created_at, "2024-01-01");
    assert_eq!(loaded.updated_at, "2024-01-02");
    assert!(load_note("2".to_string(), &store).unwrap().is_none());
}

#[test]
fn the_last_note_saved_under_an_id_wins() {
    let mut store = NotesState::new();
    save_note(note("1", "one"), &mut store).unwrap();
    save_note(note("2", "two"), &mut store).unwrap();
    save_note(note("1", "uno"), &mut store).unwrap();
    assert_eq!(titles(&store), vec!["uno", "two"]);
    assert_eq!(load_note("1".to_string(), &store).unwrap().unwrap().title, "uno");
}

#[test]
fn a_deleted_note_is_gone() {
    let mut store = NotesState::new();
    save_note(note("1", "one"), &mut store).unwrap();
    save_note(note("2", "two"), &mut store).unwrap();
    save_note(note("3", "three"), &mut store).unwrap();
    assert_eq!(delete_note("2".to_string(), &mut store), Ok(()));
    assert_eq!(titles(&store), vec!["one", "three"]);
    assert!(load_note("2".to_string(), &store).unwrap().is_none());
    assert_eq!(delete_note("2".to_string(), &mut store), Ok(()));
    assert_eq!(titles(&store), vec!["one", "three"]);
}

#[test]
fn an_empty_store_lists_nothing() {
    let store = NotesState::new();
    assert_eq!(titles(&store), Vec::<String>::new());
}

fn choice(kind: &str, content: Option<&str>) -> ConflictResolution {
    ConflictResolution {
        note_id: "n.md".to_string(),
        resolution_type: kind.to_string(),
        content: content.map(|c| c.to_string()),
    }
}

#[test]
fn a_choice_is_read_from_its_three_ways() {
    assert!(matches!(choice("keep_mine", None).resolution(), Some(Resolution::UseLocal)));
    assert!(matches!(choice("use_theirs", None).resolution(), Some(Resolution::UseRemote)));
    match choice("merge", Some("both")).resolution() {
        Some(Resolution::Content(c)) => assert_eq!(c, b"both".to_vec()),
        _ => panic!("expected the content supplied"),
    }
    assert!(choice("merge", None).resolution().is_none());
    assert!(choice("", None).resolution().is_none());
    assert!(choice("KEEP_MINE", None).resolution().is_none());
    assert!(choice("use_their", Some("x")).resolution().is_none());
}

fn conflicted() -> Repository {
    let mut repo = Repository::init("r");
    repo.index.mark_conflict(
        "n.md".to_string(),
        ConflictSides {
            base: Some(b"base".to_vec()),
            ours: Some(b"mine".to_vec()),
            theirs: Some(b"theirs".to_vec()),
        },
    );
    repo
}

#[test]
fn resolve_conflict_applies_the_choice() {
    let mut repo = conflicted();
    assert_eq!(resolve_conflict(&mut repo, &choice("keep_mine", None)), Ok(()));
    assert_eq!(repo.index.tree().get("n.md"), Some(&b"mine".to_vec()));
    assert!(!repo.has_conflicts());

    let mut repo = conflicted();
    assert_eq!(resolve_conflict(&mut repo, &choice("use_theirs", None)), Ok(()));
    assert_eq!(repo.index.tree().get("n.md"), Some(&b"theirs".to_vec()));

    let mut repo = conflicted();
    assert_eq!(resolve_conflict(&mut repo, &choice("merge", Some("both"))), Ok(()));
    assert_eq!(repo.index.tree().get("n.md"), Some(&b"both".to_vec()));
}

#[test]
fn resolve_conflict_refuses_what_it_cannot_read_or_find() {
    let mut repo = conflicted();
    assert_eq!(
        resolve_conflict(&mut repo, &choice("merge", None)),
        Err(SyncError::NotFoundError)
    );
    assert_eq!(
        resolve_conflict(&mut repo, &choice("rebase", None)),
        Err(SyncError::NotFoundError)
    );
    assert!(repo.has_conflicts());
    let mut elsewhere = choice("keep_mine", None);
    elsewhere.note_id = "other.md".to_string();
    assert_eq!(resolve_conflict(&mut repo, &elsewhere), Err(SyncError::NotFoundError));
    assert!(repo.has_conflicts());
}

fn run(events: &[SyncEvent]) -> Vec<SyncPhase> {
    let mut phase = SyncPhase::Idle;
    let mut seen = vec![];
    for e in events {
        phase = advance(phase, *e);
        seen.push(phase);
    }
    seen
}

#[test]
fn a_pull_passes_through_its_phases() {
    assert_eq!(
        run(&[SyncEvent::Start, SyncEvent::Fetched, SyncEvent::Classified(MergeClass::UpToDate)]),
        vec![SyncPhase::Fetching, SyncPhase::Analyzing, SyncPhase::Idle]
    );
    assert_eq!(
        run(&[SyncEvent::Start, SyncEvent::Fetched, SyncEvent::Classified(MergeClass::FastForward), SyncEvent::Forwarded]),
        vec![SyncPhase::Fetching, SyncPhase::Analyzing, SyncPhase::FastForwarding, SyncPhase::Idle]
    );
    assert_eq!(
        run(&[SyncEvent::Start, SyncEvent::Fetched, SyncEvent::Classified(MergeClass::Divergent), SyncEvent::MergedClean, SyncEvent::Committed]),
        vec![SyncPhase::Fetching, SyncPhase::Analyzing, SyncPhase::Merging, SyncPhase::Committing, SyncPhase::Idle]
    );
    assert_eq!(
        run(&[SyncEvent::Start, SyncEvent::Fetched, SyncEvent::Classified(MergeClass::Divergent), SyncEvent::MergedWithConflicts]),
        vec![SyncPhase::Fetching, SyncPhase::Analyzing, SyncPhase::Merging, SyncPhase::Idle]
    );
}

#[test]
fn a_failure_ends_a_synchronisation_in_any_phase() {
    for phase in [SyncPhase::Idle, SyncPhase::Fetching, SyncPhase::Analyzing, SyncPhase::FastForwarding, SyncPhase::Merging, SyncPhase::Committing] {
        assert_eq!(advance(phase, SyncEvent::Failed), SyncPhase::Idle);
    }
}

#[test]
fn an_event_out_of_turn_leaves_the_phase() {
    assert_eq!(advance(SyncPhase::Idle, SyncEvent::Fetched), SyncPhase::Idle);
    assert_eq!(advance(SyncPhase::Idle, SyncEvent::Committed), SyncPhase::Idle);
    assert_eq!(advance(SyncPhase::Fetching, SyncEvent::Start), SyncPhase::Fetching);
    assert_eq!(advance(SyncPhase::Fetching, SyncEvent::Classified(MergeClass::Divergent)), SyncPhase::Fetching);
    assert_eq!(advance(SyncPhase::Analyzing, SyncEvent::MergedClean), SyncPhase::Analyzing);
    assert_eq!(advance(SyncPhase::FastForwarding, SyncEvent::Committed), SyncPhase::FastForwarding);
    assert_eq!(advance(SyncPhase::FastForwarding, SyncEvent::MergedClean), SyncPhase::FastForwarding);
    assert_eq!(advance(SyncPhase::Merging, SyncEvent::Forwarded), SyncPhase::Merging);
    assert_eq!(advance(SyncPhase::Committing, SyncEvent::MergedWithConflicts), SyncPhase::Committing);
}

#[test]
fn the_outcome_of_a_pull_tells_the_phase_it_left_off_in() {
    assert_eq!(phase_after_analysis(&PullOutcome::UpToDate), SyncPhase::Idle);
    assert_eq!(
        phase_after_analysis(&PullOutcome::FastForwarded("x".to_string())),
        SyncPhase::FastForwarding
    );
    assert_eq!(phase_after_analysis(&PullOutcome::Merged("x".to_string())), SyncPhase::Merging);
    assert_eq!(phase_after_analysis(&PullOutcome::Conflicted(vec![])), SyncPhase::Merging);
}
