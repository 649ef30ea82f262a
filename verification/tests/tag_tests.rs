use nexusnotes::db::init_db;
use nexusnotes::models::{StoreError, Tag};
use nexusnotes::store::Store;
use nexusnotes::tags::{
    add_tag_to_note, attach_tag, get_all_tags, get_tags_for_note, remove_tag_from_note,
};

const T0: &str = "2024-01-12 09:00:00";

fn seeded_tags_store() -> Store {
    let mut store = Store::new();
    init_db(&mut store, T0);
    store
}

fn names(rows: &[Tag]) -> Vec<String> {
    rows.iter().map(|t| t.name.clone()).collect()
}

#[test]
fn attaching_twice_leaves_one_tag_and_one_association() {
    let mut store = seeded_tags_store();
    assert_eq!(add_tag_to_note(&mut store, "note1".to_string(), "urgent".to_string()), Ok(()));
    let once = store.clone();
    assert_eq!(add_tag_to_note(&mut store, "note1".to_string(), "urgent".to_string()), Ok(()));
    assert_eq!(store, once);
    assert_eq!(store.tags().len(), 1);
    assert_eq!(store.tags()[0].name, "urgent");
    assert_eq!(store.links().len(), 1);
    assert_eq!(store.links()[0].note_id, "note1");
    assert_eq!(store.links()[0].tag_id, store.tags()[0].id);
}

#[test]
fn one_tag_serves_many_notes() {
    let mut store = seeded_tags_store();
    add_tag_to_note(&mut store, "note1".to_string(), "urgent".to_string()).unwrap();
    add_tag_to_note(&mut store, "note2".to_string(), "urgent".to_string()).unwrap();
    assert_eq!(store.tags().len(), 1);
    assert_eq!(store.links().len(), 2);
    assert_eq!(store.tags()[0].id.len(), 36);
}

#[test]
fn tag_names_differ_by_letter_case() {
    let mut store = seeded_tags_store();
    add_tag_to_note(&mut store, "note1".to_string(), "urgent".to_string()).unwrap();
    add_tag_to_note(&mut store, "note1".to_string(), "Urgent".to_string()).unwrap();
    assert_eq!(store.tags().len(), 2);
    assert_eq!(store.links().len(), 2);
}

#[test]
fn attach_uses_the_given_identifier_for_a_new_tag_only() {
    let mut store = seeded_tags_store();
    let r = attach_tag(&mut store, "note1".to_string(), "a".to_string(), "t1".to_string());
    assert_eq!(r, Ok(()));
    assert_eq!(store.tags()[0], Tag { id: "t1".to_string(), name: "a".to_string() });
    let r = attach_tag(&mut store, "note2".to_string(), "a".to_string(), "t2".to_string());
    assert_eq!(r, Ok(()));
    assert_eq!(store.tags().len(), 1);
    assert_eq!(store.links()[1].tag_id, "t1");
    assert_eq!(store.links()[1].note_id, "note2");
}

#[test]
fn attach_with_a_used_identifier_is_an_error() {
    let mut store = seeded_tags_store();
    attach_tag(&mut store, "note1".to_string(), "a".to_string(), "t1".to_string()).unwrap();
    let before = store.clone();
    let r = attach_tag(&mut store, "note1".to_string(), "b".to_string(), "t1".to_string());
    assert_eq!(r, Err(StoreError::DuplicateId));
    assert_eq!(store, before);
}

#[test]
fn attach_to_an_unknown_note_is_an_error_and_creates_no_tag() {
    let mut store = seeded_tags_store();
    let before = store.clone();
    let r = add_tag_to_note(&mut store, "nowhere".to_string(), "urgent".to_string());
    assert_eq!(r, Err(StoreError::UnknownNote));
    assert_eq!(store, before);
    assert_eq!(store.tags().len(), 0);
}

#[test]
fn detach_removes_the_association_and_never_the_tag() {
    let mut store = seeded_tags_store();
    add_tag_to_note(&mut store, "note1".to_string(), "urgent".to_string()).unwrap();
    let tag = store.tags()[0].clone();
    remove_tag_from_note(&mut store, "note1".to_string(), "urgent".to_string());
    assert_eq!(store.links().len(), 0);
    assert_eq!(store.tags().len(), 1);
    assert_eq!(store.tags()[0], tag);
    assert_eq!(get_all_tags(&store), vec![tag]);
    assert_eq!(get_tags_for_note(&store, "note1".to_string()).len(), 0);
}

#[test]
fn detach_touches_only_the_named_pair() {
    let mut store = seeded_tags_store();
    add_tag_to_note(&mut store, "note1".to_string(), "a".to_string()).unwrap();
    add_tag_to_note(&mut store, "note1".to_string(), "b".to_string()).unwrap();
    add_tag_to_note(&mut store, "note2".to_string(), "a".to_string()).unwrap();
    remove_tag_from_note(&mut store, "note1".to_string(), "a".to_string());
    assert_eq!(store.links().len(), 2);
    assert_eq!(names(&get_tags_for_note(&store, "note1".to_string())), vec!["b"]);
    assert_eq!(names(&get_tags_for_note(&store, "note2".to_string())), vec!["a"]);
}

#[test]
fn detach_of_what_is_not_there_changes_nothing() {
    let mut store = seeded_tags_store();
    add_tag_to_note(&mut store, "note1".to_string(), "a".to_string()).unwrap();
    let before = store.clone();
    remove_tag_from_note(&mut store, "note1".to_string(), "no such tag".to_string());
    assert_eq!(store, before);
    remove_tag_from_note(&mut store, "note2".to_string(), "a".to_string());
    assert_eq!(store, before);
    remove_tag_from_note(&mut store, "nowhere".to_string(), "a".to_string());
    assert_eq!(store, before);
}

#[test]
fn all_tags_are_listed_by_name() {
    let mut store = seeded_tags_store();
    for name in ["pear", "Zebra", "apple", "", "apples", "äpfel"] {
        add_tag_to_note(&mut store, "note1".to_string(), name.to_string()).unwrap();
    }
    assert_eq!(names(&get_all_tags(&store)), vec!["", "Zebra", "apple", "apples", "pear", "äpfel"]);
}

#[test]
fn tags_of_a_note_come_in_the_order_of_their_creation() {
    let mut store = seeded_tags_store();
    add_tag_to_note(&mut store, "note2".to_string(), "z".to_string()).unwrap();
    add_tag_to_note(&mut store, "note1".to_string(), "m".to_string()).unwrap();
    add_tag_to_note(&mut store, "note1".to_string(), "z".to_string()).unwrap();
    add_tag_to_note(&mut store, "note1".to_string(), "a".to_string()).unwrap();
    assert_eq!(names(&get_tags_for_note(&store, "note1".to_string())), vec!["z", "m", "a"]);
    assert_eq!(names(&get_tags_for_note(&store, "note2".to_string())), vec!["z"]);
    assert_eq!(get_tags_for_note(&store, "note3".to_string()).len(), 0);
}
