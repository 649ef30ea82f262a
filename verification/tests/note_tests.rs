use nexusnotes::db::init_db;
use nexusnotes::models::{new_id, Note, StoreError};
use nexusnotes::notebooks::{create_notebook, NotebookPayload};
use nexusnotes::notes::{
    create_note, delete_note, get_notes, insert_note, update_note, NotePayload,
};
use nexusnotes::store::Store;
use nexusnotes::tags::add_tag_to_note;

const T0: &str = "2024-01-12 09:00:00";
const T1: &str = "2024-01-12 09:00:01";
const T2: &str = "2024-01-12 09:00:02";
const T3: &str = "2024-01-12 09:00:03";
const T4: &str = "2024-01-12 10:00:00";

fn seeded_store() -> Store {
    let mut store = Store::new();
    init_db(&mut store, T0);
    store
}

fn note_ids(rows: &[Note]) -> Vec<String> {
    rows.iter().map(|n| n.id.clone()).collect()
}

#[test]
fn test_create_note() {
    let mut store = Store::new();
    let notebook_id = new_id();
    create_notebook(
        &mut store,
        NotebookPayload {
            id: Some(notebook_id.clone()),
            parent_id: None,
            title: "Test Notebook".to_string(),
            icon: None,
        },
        T0,
    )
    .expect("Failed to create test notebook");

    let payload = NotePayload {
        title: "Test Note".to_string(),
        notebook_id: notebook_id.clone(),
        markdown: "This is a test note.".to_string(),
    };

    let result = create_note(&mut store, payload, T1);
    assert!(result.is_ok());

    let created_note = result.unwrap();
    assert_eq!(created_note.title, "Test Note");
    assert_eq!(created_note.notebook_id, notebook_id);
    assert_eq!(created_note.markdown, "This is a test note.");

    let fetched_note: Note = store.find_note(&created_note.id).expect("Failed to fetch created note");

    assert_eq!(fetched_note.id, created_note.id);
    assert_eq!(fetched_note.title, "Test Note");
}

#[test]
fn new_note_has_the_default_fields() {
    let mut store = seeded_store();
    let note = create_note(
        &mut store,
        NotePayload {
            title: "T".to_string(),
            notebook_id: "inbox_nb".to_string(),
            markdown: String::new(),
        },
        T1,
    )
    .unwrap();
    assert_eq!(note.priority, 0);
    assert_eq!(note.date, None);
    assert_eq!(note.created_at, T1);
    assert_eq!(note.updated_at, T1);
    assert_eq!(note.markdown, "");
    assert_eq!(note.id.len(), 36);
    assert_eq!(store.notes().len(), 9);
    assert_eq!(store.notes()[8], note);
}

#[test]
fn blank_note_title_is_refused_and_nothing_is_stored() {
    let mut store = seeded_store();
    let before = store.clone();
    for title in ["", "  ", "\n"] {
        let r = create_note(
            &mut store,
            NotePayload {
                title: title.to_string(),
                notebook_id: "inbox_nb".to_string(),
                markdown: "text".to_string(),
            },
            T1,
        );
        assert_eq!(r, Err(StoreError::EmptyNoteTitle));
        assert_eq!(store, before);
    }
}

#[test]
fn note_in_an_unknown_notebook_is_an_error() {
    let mut store = seeded_store();
    let before = store.clone();
    let r = create_note(
        &mut store,
        NotePayload {
            title: "T".to_string(),
            notebook_id: "nowhere".to_string(),
            markdown: String::new(),
        },
        T1,
    );
    assert_eq!(r, Err(StoreError::UnknownNotebook));
    assert_eq!(store, before);
}

#[test]
fn duplicate_note_id_is_an_error() {
    let mut store = seeded_store();
    let before = store.clone();
    let r = insert_note(
        &mut store,
        "note1".to_string(),
        "inbox_nb".to_string(),
        "T".to_string(),
        String::new(),
        T1,
    );
    assert_eq!(r, Err(StoreError::DuplicateId));
    assert_eq!(store, before);
}

#[test]
fn notes_are_listed_latest_update_first() {
    let mut store = seeded_store();
    for (id, at) in [("a", T1), ("b", T2), ("c", T3)] {
        insert_note(
            &mut store,
            id.to_string(),
            "recipes".to_string(),
            id.to_string(),
            String::new(),
            at,
        )
        .unwrap();
    }
    let listed = get_notes(&store, "recipes".to_string());
    assert_eq!(note_ids(&listed), vec!["c", "b", "a", "note4"]);
    update_note(&mut store, "a".to_string(), "a".to_string(), "x".to_string(), 0, None, T4).unwrap();
    let listed = get_notes(&store, "recipes".to_string());
    assert_eq!(note_ids(&listed), vec!["a", "c", "b", "note4"]);
    assert_eq!(get_notes(&store, "nowhere".to_string()).len(), 0);
}

#[test]
fn notes_updated_at_the_same_time_keep_their_order() {
    let store = seeded_store();
    let listed = get_notes(&store, "daily_notes".to_string());
    assert_eq!(note_ids(&listed), vec!["note2", "note3"]);
}

#[test]
fn new_note_is_listed_before_older_ones() {
    let mut store = seeded_store();
    let note = create_note(
        &mut store,
        NotePayload {
            title: "Fresh".to_string(),
            notebook_id: "daily_notes".to_string(),
            markdown: String::new(),
        },
        T1,
    )
    .unwrap();
    let listed = get_notes(&store, "daily_notes".to_string());
    assert_eq!(listed.len(), 3);
    assert_eq!(listed[0], note);
    assert_eq!(note_ids(&listed), vec![note.id.as_str(), "note2", "note3"]);
}

#[test]
fn update_overwrites_the_fields_and_refreshes_the_time() {
    let mut store = seeded_store();
    let before = store.find_note(&"note3".to_string()).unwrap();
    let r = update_note(
        &mut store,
        "note3".to_string(),
        "Standup".to_string(),
        "new text".to_string(),
        2,
        Some("2024-01-15".to_string()),
        T4,
    );
    assert_eq!(r, Ok(()));
    let after = store.find_note(&"note3".to_string()).unwrap();
    assert_eq!(after.title, "Standup");
    assert_eq!(after.markdown, "new text");
    assert_eq!(after.priority, 2);
    assert_eq!(after.date, Some("2024-01-15".to_string()));
    assert_eq!(after.created_at, before.created_at);
    assert_eq!(after.updated_at, T4);
    assert!(after.updated_at > before.updated_at);
    assert_eq!(after.notebook_id, before.notebook_id);
    assert_eq!(store.notes()[2].id, "note3");
    assert_eq!(store.notes().len(), 8);
}

#[test]
fn update_refuses_a_blank_title() {
    let mut store = seeded_store();
    let before = store.clone();
    let r = update_note(&mut store, "note3".to_string(), " ".to_string(), "x".to_string(), 1, None, T4);
    assert_eq!(r, Err(StoreError::EmptyNoteTitle));
    assert_eq!(store, before);
}

#[test]
fn update_of_a_missing_note_changes_nothing() {
    let mut store = seeded_store();
    let before = store.clone();
    let r = update_note(&mut store, "nowhere".to_string(), "T".to_string(), "x".to_string(), 1, None, T4);
    assert_eq!(r, Ok(()));
    assert_eq!(store, before);
}

#[test]
fn delete_note_removes_its_associations_and_keeps_the_tags() {
    let mut store = seeded_store();
    add_tag_to_note(&mut store, "note1".to_string(), "urgent".to_string()).unwrap();
    add_tag_to_note(&mut store, "note2".to_string(), "urgent".to_string()).unwrap();
    delete_note(&mut store, "note1".to_string());
    assert!(store.find_note(&"note1".to_string()).is_none());
    assert_eq!(store.notes().len(), 7);
    assert_eq!(store.links().len(), 1);
    assert_eq!(store.links()[0].note_id, "note2");
    assert_eq!(store.tags().len(), 1);
    assert_eq!(store.notebooks().len(), 10);
}

#[test]
fn delete_of_a_missing_note_changes_nothing() {
    let mut store = seeded_store();
    let before = store.clone();
    delete_note(&mut store, "nowhere".to_string());
    assert_eq!(store, before);
}
