use nexusnotes::db::init_db;
use nexusnotes::models::{Note, NoteTag, Notebook, Tag};
use nexusnotes::store::Store;

const T0: &str = "2024-01-12 09:00:00";
const T1: &str = "2024-02-01 00:00:00";

fn nb(id: &str, parent: Option<&str>, title: &str) -> Notebook {
    Notebook {
        id: id.to_string(),
        parent_id: parent.map(|p| p.to_string()),
        title: title.to_string(),
        icon: None,
        sort_order: 0,
        created_at: T0.to_string(),
    }
}

fn nt(id: &str, notebook: &str, title: &str) -> Note {
    Note {
        id: id.to_string(),
        notebook_id: notebook.to_string(),
        title: title.to_string(),
        markdown: String::new(),
        priority: 0,
        date: None,
        created_at: T0.to_string(),
        updated_at: T0.to_string(),
    }
}

fn tag(id: &str, name: &str) -> Tag {
    Tag { id: id.to_string(), name: name.to_string() }
}

fn link(note: &str, tag: &str) -> NoteTag {
    NoteTag { note_id: note.to_string(), tag_id: tag.to_string() }
}

#[test]
fn a_new_store_is_empty() {
    let store = Store::new();
    assert_eq!(store.notebooks().len(), 0);
    assert_eq!(store.notes().len(), 0);
    assert_eq!(store.tags().len(), 0);
    assert_eq!(store.links().len(), 0);
}

#[test]
fn an_empty_store_gets_the_first_content() {
    let mut store = Store::new();
    init_db(&mut store, T0);
    assert_eq!(store.notebooks().len(), 10);
    assert_eq!(store.notes().len(), 8);
    assert_eq!(store.tags().len(), 0);
    assert_eq!(store.links().len(), 0);
    let inbox = &store.notebooks()[0];
    assert_eq!(inbox.id, "inbox_nb");
    assert_eq!(inbox.title, "Inbox");
    assert_eq!(inbox.icon, Some("📥".to_string()));
    assert_eq!(inbox.sort_order, 0);
    assert_eq!(inbox.parent_id, None);
    assert_eq!(inbox.created_at, T0);
    let recipes = &store.notebooks()[5];
    assert_eq!(recipes.id, "recipes");
    assert_eq!(recipes.parent_id, Some("personal_nb".to_string()));
    assert_eq!(recipes.sort_order, 1);
    let cookies = &store.notes()[3];
    assert_eq!(cookies.id, "note4");
    assert_eq!(cookies.notebook_id, "recipes");
    assert_eq!(cookies.title, "Chocolate Chip Cookies");
    assert!(cookies.markdown.ends_with("1. Preheat oven to 350°F"));
    assert_eq!(cookies.priority, 0);
    assert_eq!(cookies.date, None);
    assert_eq!(store.notes()[1].title, "Today's Goals");
    assert_eq!(
        store.notes()[1].markdown,
        "- [ ] Review project updates\n- [ ] Call mom\n- [ ] Grocery shopping"
    );
}

#[test]
fn making_ready_twice_is_the_same_as_once() {
    let mut store = Store::new();
    init_db(&mut store, T0);
    let once = store.clone();
    init_db(&mut store, T1);
    assert_eq!(store, once);
}

#[test]
fn a_store_with_a_notebook_is_not_seeded() {
    let mut store = Store::from_rows(vec![nb("a", None, "A")], vec![], vec![], vec![]).unwrap();
    let before = store.clone();
    init_db(&mut store, T0);
    assert_eq!(store, before);
}

#[test]
fn the_first_content_passes_the_checks_of_the_store() {
    let mut store = Store::new();
    init_db(&mut store, T0);
    let again = Store::from_rows(
        store.notebooks().clone(),
        store.notes().clone(),
        store.tags().clone(),
        store.links().clone(),
    );
    assert_eq!(again, Some(store));
}

#[test]
fn rows_that_meet_the_constraints_make_a_store() {
    let store = Store::from_rows(
        vec![nb("a", None, "A"), nb("b", Some("a"), "B"), nb("c", Some("c"), "C")],
        vec![nt("n1", "b", "N1"), nt("n2", "a", "N2")],
        vec![tag("t1", "x"), tag("t2", "y")],
        vec![link("n1", "t1"), link("n1", "t2"), link("n2", "t1")],
    )
    .unwrap();
    assert_eq!(store.notebooks().len(), 3);
    assert_eq!(store.notes().len(), 2);
    assert_eq!(store.tags().len(), 2);
    assert_eq!(store.links().len(), 3);
    assert_eq!(store.find_note(&"n2".to_string()).unwrap().notebook_id, "a");
    assert_eq!(store.notebook_position(&"b".to_string()), Some(1));
    assert_eq!(store.note_position(&"zz".to_string()), None);
    assert_eq!(store.tag_position(&"t2".to_string()), Some(1));
    assert_eq!(store.tag_position_by_name(&"x".to_string()), Some(0));
    assert_eq!(store.link_position(&"n2".to_string(), &"t1".to_string()), Some(2));
    assert!(store.is_linked(&"n1".to_string(), &"t2".to_string()));
    assert!(!store.is_linked(&"n2".to_string(), &"t2".to_string()));
}

#[test]
fn rows_with_a_repeated_key_make_no_store() {
    assert!(Store::from_rows(vec![nb("a", None, "A"), nb("a", None, "B")], vec![], vec![], vec![])
        .is_none());
    assert!(Store::from_rows(
        vec![nb("a", None, "A")],
        vec![nt("n", "a", "N"), nt("n", "a", "M")],
        vec![],
        vec![]
    )
    .is_none());
    assert!(Store::from_rows(vec![], vec![], vec![tag("t", "x"), tag("t", "y")], vec![]).is_none());
    assert!(Store::from_rows(vec![], vec![], vec![tag("t", "x"), tag("u", "x")], vec![]).is_none());
    assert!(Store::from_rows(
        vec![nb("a", None, "A")],
        vec![nt("n", "a", "N")],
        vec![tag("t", "x")],
        vec![link("n", "t"), link("n", "t")]
    )
    .is_none());
}

#[test]
fn rows_with_a_dangling_reference_make_no_store() {
    assert!(Store::from_rows(vec![nb("a", Some("zz"), "A")], vec![], vec![], vec![]).is_none());
    assert!(Store::from_rows(vec![nb("a", None, "A")], vec![nt("n", "zz", "N")], vec![], vec![])
        .is_none());
    assert!(Store::from_rows(
        vec![nb("a", None, "A")],
        vec![nt("n", "a", "N")],
        vec![tag("t", "x")],
        vec![link("zz", "t")]
    )
    .is_none());
    assert!(Store::from_rows(
        vec![nb("a", None, "A")],
        vec![nt("n", "a", "N")],
        vec![tag("t", "x")],
        vec![link("n", "zz")]
    )
    .is_none());
}

#[test]
fn rows_with_a_blank_title_make_no_store() {
    assert!(Store::from_rows(vec![nb("a", None, " ")], vec![], vec![], vec![]).is_none());
    assert!(Store::from_rows(vec![nb("a", None, "A")], vec![nt("n", "a", "")], vec![], vec![])
        .is_none());
}
