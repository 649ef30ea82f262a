use nexusnotes::db::init_db;
use nexusnotes::models::{Note, Notebook, SearchResult};
use nexusnotes::notes::{insert_note, update_note};
use nexusnotes::search::{
    get_backlinks, merge_search_results, search_folded, search_notes_and_notebooks,
};
use nexusnotes::store::Store;
use nexusnotes::tags::add_tag_to_note;

const T0: &str = "2024-01-12 09:00:00";
const T1: &str = "2024-01-12 09:00:01";

fn seeded_search_store() -> Store {
    let mut store = Store::new();
    init_db(&mut store, T0);
    store
}

fn labels(hits: &[SearchResult]) -> Vec<String> {
    hits.iter()
        .map(|h| match h {
            SearchResult::Note(n) => format!("note:{}", n.id),
            SearchResult::Notebook(b) => format!("notebook:{}", b.id),
        })
        .collect()
}

fn note(id: &str) -> Note {
    Note {
        id: id.to_string(),
        notebook_id: "nb".to_string(),
        title: id.to_string(),
        markdown: String::new(),
        priority: 0,
        date: None,
        created_at: T0.to_string(),
        updated_at: T0.to_string(),
    }
}

#[test]
fn search_for_cookies_finds_the_recipe() {
    let store = seeded_search_store();
    let hits = search_notes_and_notebooks(&store, "cookies".to_string());
    assert_eq!(labels(&hits), vec!["note:note4"]);
    match &hits[0] {
        SearchResult::Note(n) => assert_eq!(n.title, "Chocolate Chip Cookies"),
        SearchResult::Notebook(_) => panic!("a note was expected"),
    }
}

#[test]
fn search_sets_letter_case_aside() {
    let store = seeded_search_store();
    assert_eq!(labels(&search_notes_and_notebooks(&store, "COOKIES".to_string())), vec!["note:note4"]);
    assert_eq!(labels(&search_notes_and_notebooks(&store, "CoOkIeS".to_string())), vec!["note:note4"]);
    assert_eq!(
        labels(&search_notes_and_notebooks(&store, "POSTGRESQL".to_string())),
        vec!["note:note7"]
    );
}

#[test]
fn search_folded_takes_the_query_as_it_is() {
    let store = seeded_search_store();
    let upper: Vec<char> = "COOKIES".chars().collect();
    let lower: Vec<char> = "cookies".chars().collect();
    assert_eq!(search_folded(&store, &upper).len(), 0);
    assert_eq!(labels(&search_folded(&store, &lower)), vec!["note:note4"]);
}

#[test]
fn empty_query_finds_every_note_and_notebook() {
    let store = seeded_search_store();
    let hits = search_notes_and_notebooks(&store, String::new());
    assert_eq!(hits.len(), 18);
    assert_eq!(
        labels(&hits),
        vec![
            "note:note1",
            "note:note2",
            "note:note3",
            "note:note4",
            "note:note5",
            "note:note6",
            "note:note7",
            "note:note8",
            "notebook:inbox_nb",
            "notebook:personal_nb",
            "notebook:work_nb",
            "notebook:projects_nb",
            "notebook:daily_notes",
            "notebook:recipes",
            "notebook:meetings",
            "notebook:ideas",
            "notebook:web_app",
            "notebook:mobile_app"
        ]
    );
}

#[test]
fn empty_query_lists_tagged_notes_once() {
    let mut store = seeded_search_store();
    add_tag_to_note(&mut store, "note1".to_string(), "urgent".to_string()).unwrap();
    assert_eq!(search_notes_and_notebooks(&store, String::new()).len(), 18);
}

#[test]
fn search_lists_notes_then_notebooks_then_tagged_notes() {
    let mut store = seeded_search_store();
    add_tag_to_note(&mut store, "note8".to_string(), "Mobile".to_string()).unwrap();
    add_tag_to_note(&mut store, "note6".to_string(), "mobile-first".to_string()).unwrap();
    add_tag_to_note(&mut store, "note1".to_string(), "mobile-first".to_string()).unwrap();
    let hits = search_notes_and_notebooks(&store, "mobile".to_string());
    assert_eq!(
        labels(&hits),
        vec!["note:note6", "notebook:mobile_app", "note:note1", "note:note8"]
    );
}

#[test]
fn search_finds_nothing_for_an_unknown_word() {
    let store = seeded_search_store();
    assert_eq!(search_notes_and_notebooks(&store, "xyzzy".to_string()).len(), 0);
}

#[test]
fn search_takes_percent_and_underscore_literally() {
    let store = seeded_search_store();
    assert_eq!(search_notes_and_notebooks(&store, "%".to_string()).len(), 0);
    assert_eq!(labels(&search_notes_and_notebooks(&store, "_".to_string())).len(), 0);
}

#[test]
fn merge_skips_tagged_notes_of_the_first_group_only() {
    let notes = vec![note("a")];
    let notebooks: Vec<Notebook> = vec![];
    let tagged = vec![note("a"), note("b"), note("b")];
    let hits = merge_search_results(&notes, &notebooks, &tagged);
    assert_eq!(labels(&hits), vec!["note:a", "note:b", "note:b"]);
}

#[test]
fn backlinks_are_the_other_notes_that_name_the_note() {
    let mut store = seeded_search_store();
    assert_eq!(get_backlinks(&store, "note3".to_string()).len(), 0);
    insert_note(
        &mut store,
        "ref".to_string(),
        "inbox_nb".to_string(),
        "Follow-up".to_string(),
        "as decided in [[note3]]".to_string(),
        T1,
    )
    .unwrap();
    update_note(
        &mut store,
        "note3".to_string(),
        "Meeting Notes".to_string(),
        "this is note3 itself".to_string(),
        0,
        None,
        T1,
    )
    .unwrap();
    let found = get_backlinks(&store, "note3".to_string());
    assert_eq!(found.len(), 1);
    assert_eq!(found[0].id, "ref");
    assert!(found[0].markdown.contains("note3"));
}

#[test]
fn backlinks_compare_letter_for_letter() {
    let mut store = seeded_search_store();
    insert_note(
        &mut store,
        "upper".to_string(),
        "inbox_nb".to_string(),
        "Upper".to_string(),
        "see NOTE3".to_string(),
        T1,
    )
    .unwrap();
    insert_note(
        &mut store,
        "longer".to_string(),
        "inbox_nb".to_string(),
        "Longer".to_string(),
        "see note31".to_string(),
        T1,
    )
    .unwrap();
    let found = get_backlinks(&store, "note3".to_string());
    assert_eq!(found.len(), 1);
    assert_eq!(found[0].id, "longer");
}
