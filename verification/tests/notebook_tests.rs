use nexusnotes::db::init_db;
use nexusnotes::models::{Notebook, StoreError};
use nexusnotes::notebooks::{
    create_notebook, delete_notebook, get_notebooks, insert_notebook, move_notebook,
    rename_notebook, NotebookPayload,
};
use nexusnotes::store::Store;
use nexusnotes::tags::{add_tag_to_note, get_all_tags, get_tags_for_note};

const T0: &str = "2024-01-12 09:00:00";
const T1: &str = "2024-01-12 09:00:01";

fn payload(id: Option<&str>, parent: Option<&str>, title: &str) -> NotebookPayload {
    NotebookPayload {
        id: id.map(|s| s.to_string()),
        parent_id: parent.map(|s| s.to_string()),
        title: title.to_string(),
        icon: None,
    }
}

fn ids(rows: &[Notebook]) -> Vec<String> {
    rows.iter().map(|n| n.id.clone()).collect()
}

fn seeded() -> Store {
    let mut store = Store::new();
    init_db(&mut store, T0);
    store
}

#[test]
fn blank_notebook_title_is_refused_and_nothing_is_stored() {
    let mut store = Store::new();
    for title in ["", " ", "   ", "\t\n", "\u{3000}\u{a0}"] {
        let r = create_notebook(&mut store, payload(Some("a"), None, title), T0);
        assert_eq!(r, Err(StoreError::EmptyNotebookTitle));
        assert_eq!(store.notebooks().len(), 0);
    }
    assert_eq!(store, Store::new());
}

#[test]
fn first_child_gets_position_one_and_later_ones_follow() {
    let mut store = Store::new();
    let a = create_notebook(&mut store, payload(Some("a"), None, "A"), T0).unwrap();
    assert_eq!(a.sort_order, 1);
    assert_eq!(a.parent_id, None);
    assert_eq!(a.created_at, T0);
    let b = create_notebook(&mut store, payload(Some("b"), None, "B"), T0).unwrap();
    assert_eq!(b.sort_order, 2);
    let c = create_notebook(&mut store, payload(Some("c"), Some("a"), "C"), T1).unwrap();
    assert_eq!(c.sort_order, 1);
    assert_eq!(c.parent_id, Some("a".to_string()));
    let d = create_notebook(&mut store, payload(Some("d"), Some("a"), "D"), T1).unwrap();
    assert_eq!(d.sort_order, 2);
    let listed = get_notebooks(&store);
    assert_eq!(ids(&listed), vec!["a", "c", "b", "d"]);
    assert_eq!(listed[3], d);
}

#[test]
fn position_follows_the_largest_sibling_position() {
    let rows = vec![
        Notebook {
            id: "x".to_string(),
            parent_id: None,
            title: "X".to_string(),
            icon: None,
            sort_order: 7,
            created_at: T0.to_string(),
        },
        Notebook {
            id: "y".to_string(),
            parent_id: None,
            title: "Y".to_string(),
            icon: None,
            sort_order: -3,
            created_at: T0.to_string(),
        },
    ];
    let mut store = Store::from_rows(rows, vec![], vec![], vec![]).unwrap();
    let z = create_notebook(&mut store, payload(Some("z"), None, "Z"), T1).unwrap();
    assert_eq!(z.sort_order, 8);
}

#[test]
fn negative_sibling_positions_are_followed_too() {
    let rows = vec![Notebook {
        id: "x".to_string(),
        parent_id: None,
        title: "X".to_string(),
        icon: None,
        sort_order: -5,
        created_at: T0.to_string(),
    }];
    let mut store = Store::from_rows(rows, vec![], vec![], vec![]).unwrap();
    let z = create_notebook(&mut store, payload(Some("z"), None, "Z"), T1).unwrap();
    assert_eq!(z.sort_order, -4);
}

#[test]
fn position_out_of_range_is_an_error() {
    let rows = vec![Notebook {
        id: "x".to_string(),
        parent_id: None,
        title: "X".to_string(),
        icon: None,
        sort_order: i32::MAX,
        created_at: T0.to_string(),
    }];
    let mut store = Store::from_rows(rows, vec![], vec![], vec![]).unwrap();
    let before = store.clone();
    let r = create_notebook(&mut store, payload(Some("z"), None, "Z"), T1);
    assert_eq!(r, Err(StoreError::SortOrderOverflow));
    assert_eq!(store, before);
}

#[test]
fn duplicate_notebook_id_is_an_error() {
    let mut store = seeded();
    let before = store.clone();
    let r = create_notebook(&mut store, payload(Some("inbox_nb"), None, "Again"), T1);
    assert_eq!(r, Err(StoreError::DuplicateId));
    assert_eq!(store, before);
}

#[test]
fn unknown_parent_is_an_error() {
    let mut store = seeded();
    let before = store.clone();
    let r = create_notebook(&mut store, payload(Some("n"), Some("nowhere"), "N"), T1);
    assert_eq!(r, Err(StoreError::UnknownParent));
    assert_eq!(store, before);
}

#[test]
fn notebook_without_given_id_gets_a_fresh_one() {
    let mut store = Store::new();
    let a = create_notebook(&mut store, payload(None, None, "A"), T0).unwrap();
    let b = create_notebook(&mut store, payload(None, None, "B"), T0).unwrap();
    assert_eq!(a.id.len(), 36);
    assert_ne!(a.id, b.id);
    assert_eq!(store.notebooks().len(), 2);
}

#[test]
fn insert_notebook_keeps_title_and_icon() {
    let mut store = Store::new();
    let a = insert_notebook(
        &mut store,
        "a".to_string(),
        None,
        "Alpha".to_string(),
        Some("*".to_string()),
        T0,
    )
    .unwrap();
    assert_eq!(a.title, "Alpha");
    assert_eq!(a.icon, Some("*".to_string()));
    assert_eq!(store.find_notebook(&"a".to_string()), Some(a));
    assert_eq!(store.find_notebook(&"b".to_string()), None);
}

#[test]
fn seeded_notebooks_are_listed_by_position_then_insertion() {
    let store = seeded();
    let listed = get_notebooks(&store);
    assert_eq!(
        ids(&listed),
        vec![
            "inbox_nb",
            "daily_notes",
            "meetings",
            "web_app",
            "personal_nb",
            "recipes",
            "ideas",
            "mobile_app",
            "work_nb",
            "projects_nb"
        ]
    );
}

#[test]
fn equal_positions_are_listed_by_creation_time() {
    let row = |id: &str, at: &str| Notebook {
        id: id.to_string(),
        parent_id: None,
        title: id.to_string(),
        icon: None,
        sort_order: 1,
        created_at: at.to_string(),
    };
    let rows = vec![
        row("late", "2024-03-01 00:00:00"),
        row("early", "2023-12-31 23:59:59"),
        row("mid", "2024-01-01 00:00:00"),
    ];
    let store = Store::from_rows(rows, vec![], vec![], vec![]).unwrap();
    assert_eq!(ids(&get_notebooks(&store)), vec!["early", "mid", "late"]);
}

#[test]
fn rename_changes_the_title_in_place() {
    let mut store = seeded();
    let r = rename_notebook(&mut store, "recipes".to_string(), "Cooking".to_string());
    assert_eq!(r, Ok(()));
    let row = store.find_notebook(&"recipes".to_string()).unwrap();
    assert_eq!(row.title, "Cooking");
    assert_eq!(row.sort_order, 1);
    assert_eq!(store.notebooks()[5].id, "recipes");
    assert_eq!(store.notebooks().len(), 10);
}

#[test]
fn rename_refuses_a_blank_title() {
    let mut store = seeded();
    let before = store.clone();
    let r = rename_notebook(&mut store, "recipes".to_string(), "  ".to_string());
    assert_eq!(r, Err(StoreError::EmptyNotebookTitle));
    assert_eq!(store, before);
}

#[test]
fn rename_of_a_missing_notebook_changes_nothing() {
    let mut store = seeded();
    let before = store.clone();
    let r = rename_notebook(&mut store, "nowhere".to_string(), "Title".to_string());
    assert_eq!(r, Ok(()));
    assert_eq!(store, before);
}

#[test]
fn move_sets_the_parent_and_keeps_the_position() {
    let mut store = seeded();
    let r = move_notebook(&mut store, "recipes".to_string(), Some("work_nb".to_string()));
    assert_eq!(r, Ok(()));
    let row = store.find_notebook(&"recipes".to_string()).unwrap();
    assert_eq!(row.parent_id, Some("work_nb".to_string()));
    assert_eq!(row.sort_order, 1);
    let r = move_notebook(&mut store, "recipes".to_string(), None);
    assert_eq!(r, Ok(()));
    assert_eq!(store.find_notebook(&"recipes".to_string()).unwrap().parent_id, None);
}

#[test]
fn move_under_an_unknown_parent_is_an_error() {
    let mut store = seeded();
    let before = store.clone();
    let r = move_notebook(&mut store, "recipes".to_string(), Some("nowhere".to_string()));
    assert_eq!(r, Err(StoreError::UnknownParent));
    assert_eq!(store, before);
}

#[test]
fn move_of_a_missing_notebook_changes_nothing() {
    let mut store = seeded();
    let before = store.clone();
    let r = move_notebook(&mut store, "nowhere".to_string(), Some("also_nowhere".to_string()));
    assert_eq!(r, Ok(()));
    assert_eq!(store, before);
}

#[test]
fn delete_removes_the_subtree_with_notes_and_associations() {
    let mut store = seeded();
    add_tag_to_note(&mut store, "note2".to_string(), "urgent".to_string()).unwrap();
    add_tag_to_note(&mut store, "note4".to_string(), "food".to_string()).unwrap();
    add_tag_to_note(&mut store, "note1".to_string(), "urgent".to_string()).unwrap();
    assert_eq!(store.links().len(), 3);
    delete_notebook(&mut store, "personal_nb".to_string());
    assert_eq!(
        ids(store.notebooks()),
        vec!["inbox_nb", "work_nb", "projects_nb", "meetings", "ideas", "web_app", "mobile_app"]
    );
    let notes: Vec<&str> = store.notes().iter().map(|n| n.id.as_str()).collect();
    assert_eq!(notes, vec!["note1", "note5", "note6", "note7", "note8"]);
    assert_eq!(store.links().len(), 1);
    assert_eq!(store.links()[0].note_id, "note1");
    assert_eq!(get_all_tags(&store).len(), 2);
    assert_eq!(get_tags_for_note(&store, "note1".to_string()).len(), 1);
    assert_eq!(get_tags_for_note(&store, "note2".to_string()).len(), 0);
}

#[test]
fn delete_of_a_leaf_leaves_its_siblings() {
    let mut store = seeded();
    delete_notebook(&mut store, "recipes".to_string());
    assert_eq!(store.notebooks().len(), 9);
    assert_eq!(store.notes().len(), 7);
    assert!(store.find_notebook(&"daily_notes".to_string()).is_some());
    assert!(store.find_note(&"note4".to_string()).is_none());
}

#[test]
fn delete_of_a_missing_notebook_changes_nothing() {
    let mut store = seeded();
    let before = store.clone();
    delete_notebook(&mut store, "nowhere".to_string());
    assert_eq!(store, before);
}

#[test]
fn delete_follows_a_cycle_once_around() {
    let mut store = seeded();
    let r = move_notebook(&mut store, "personal_nb".to_string(), Some("recipes".to_string()));
    assert_eq!(r, Ok(()));
    delete_notebook(&mut store, "recipes".to_string());
    assert_eq!(
        ids(store.notebooks()),
        vec!["inbox_nb", "work_nb", "projects_nb", "meetings", "ideas", "web_app", "mobile_app"]
    );
    assert_eq!(store.notes().len(), 5);
}

#[test]
fn a_notebook_may_be_moved_under_itself() {
    let mut store = seeded();
    let r = move_notebook(&mut store, "ideas".to_string(), Some("ideas".to_string()));
    assert_eq!(r, Ok(()));
    delete_notebook(&mut store, "work_nb".to_string());
    assert!(store.find_notebook(&"ideas".to_string()).is_some());
    assert!(store.find_notebook(&"meetings".to_string()).is_none());
    delete_notebook(&mut store, "ideas".to_string());
    assert!(store.find_notebook(&"ideas".to_string()).is_none());
    assert!(store.find_note(&"note6".to_string()).is_none());
}
