//! The first content of a store: the notebooks and notes that a new user
//! finds.

use crate::models::{views, Note, NoteView, Notebook, NotebookView};
use crate::store::{Store, StoreView};
use crate::text::is_whitespace;
use vstd::prelude::*;

verus! {

pub open spec fn opt_str(o: Option<&str>) -> Option<Seq<char>> {
    match o {
        Some(s) => Some(s@),
        None => None,
    }
}

pub open spec fn seed_notebook(
    id: Seq<char>,
    parent: Option<Seq<char>>,
    title: Seq<char>,
    icon: Seq<char>,
    sort_order: int,
    now: Seq<char>,
) -> NotebookView {
    NotebookView { id, parent_id: parent, title, icon: Some(icon), sort_order, created_at: now }
}

pub open spec fn seed_note(
    id: Seq<char>,
    notebook_id: Seq<char>,
    title: Seq<char>,
    markdown: Seq<char>,
    now: Seq<char>,
) -> NoteView {
    NoteView {
        id,
        notebook_id,
        title,
        markdown,
        priority: 0,
        date: None,
        created_at: now,
        updated_at: now,
    }
}

/// The notebooks of a new store: four at the top, and six below three of them.
pub open spec fn seed_notebooks(now: Seq<char>) -> Seq<NotebookView> {
    seq![
        seed_notebook("inbox_nb"@, None, "Inbox"@, "📥"@, 0, now),
        seed_notebook("personal_nb"@, None, "Personal"@, "👤"@, 1, now),
        seed_notebook("work_nb"@, None, "Work"@, "💼"@, 2, now),
        seed_notebook("projects_nb"@, None, "Projects"@, "🚀"@, 3, now),
        seed_notebook("daily_notes"@, Some("personal_nb"@), "Daily Notes"@, "📅"@, 0, now),
        seed_notebook("recipes"@, Some("personal_nb"@), "Recipes"@, "🍳"@, 1, now),
        seed_notebook("meetings"@, Some("work_nb"@), "Meetings"@, "📝"@, 0, now),
        seed_notebook("ideas"@, Some("work_nb"@), "Ideas"@, "💡"@, 1, now),
        seed_notebook("web_app"@, Some("projects_nb"@), "Web App"@, "🌐"@, 0, now),
        seed_notebook("mobile_app"@, Some("projects_nb"@), "Mobile App"@, "📱"@, 1, now),
    ]
}

/// The notes of a new store.
pub open spec fn seed_notes(now: Seq<char>) -> Seq<NoteView> {
    seq![
        seed_note(
            "note1"@,
            "inbox_nb"@,
            "Welcome to NexusNotes"@,
            "This is your inbox for quick captures!"@,
            now,
        ),
        seed_note(
            "note2"@,
            "daily_notes"@,
            "Today's Goals"@,
            "- [ ] Review project updates\n- [ ] Call mom\n- [ ] Grocery shopping"@,
            now,
        ),
        seed_note(
            "note3"@,
            "daily_notes"@,
            "Meeting Notes - Jan 12"@,
            "## Team Standup\n- Alice: Working on frontend\n- Bob: Database optimization"@,
            now,
        ),
        seed_note(
            "note4"@,
            "recipes"@,
            "Chocolate Chip Cookies"@,
            "## Ingredients\n- 2 cups flour\n- 1 cup sugar\n- 1/2 cup butter\n\n## Instructions\n1. Preheat oven to 350°F"@,
            now,
        ),
        seed_note(
            "note5"@,
            "meetings"@,
            "Q1 Planning Session"@,
            "## Agenda\n1. Review last quarter\n2. Set Q1 goals\n3. Resource allocation"@,
            now,
        ),
        seed_note(
            "note6"@,
            "ideas"@,
            "App Feature Ideas"@,
            "- Dark mode toggle\n- Export to PDF\n- Real-time collaboration\n- Mobile app"@,
            now,
        ),
        seed_note(
            "note7"@,
            "web_app"@,
            "Tech Stack Decision"@,
            "## Frontend\n- React vs Svelte\n- TypeScript\n\n## Backend\n- Node.js\n- PostgreSQL"@,
            now,
        ),
        seed_note(
            "note8"@,
            "mobile_app"@,
            "UI Mockups"@,
            "Created initial wireframes for:\n- Login screen\n- Dashboard\n- Note editor"@,
            now,
        ),
    ]
}

impl StoreView {
    /// The store with the first content in place of its notebooks and notes.
    pub open spec fn seeded(self, now: Seq<char>) -> StoreView {
        StoreView { notebooks: seed_notebooks(now), notes: seed_notes(now), ..self }
    }

    /// The store after it was made ready: one without notebooks gets the
    /// first content, any other stays as it is.
    pub open spec fn initialized(self, now: Seq<char>) -> StoreView {
        if self.notebooks.len() == 0 {
            self.seeded(now)
        } else {
            self
        }
    }
}

fn new_notebook(
    id: &str,
    parent: Option<&str>,
    title: &str,
    icon: &str,
    sort_order: i32,
    now: &str,
) -> (row: Notebook)
    ensures
        row@ == seed_notebook(id@, opt_str(parent), title@, icon@, sort_order as int, now@),
{
    Notebook {
        id: id.to_string(),
        parent_id: match parent {
            Some(p) => Some(p.to_string()),
            None => None,
        },
        title: title.to_string(),
        icon: Some(icon.to_string()),
        sort_order,
        created_at: now.to_string(),
    }
}

fn new_note(id: &str, notebook_id: &str, title: &str, markdown: &str, now: &str) -> (row: Note)
    ensures
        row@ == seed_note(id@, notebook_id@, title@, markdown@, now@),
{
    Note {
        id: id.to_string(),
        notebook_id: notebook_id.to_string(),
        title: title.to_string(),
        markdown: markdown.to_string(),
        priority: 0,
        date: None,
        created_at: now.to_string(),
        updated_at: now.to_string(),
    }
}

proof fn lemma_seed_ids()
    ensures
        "inbox_nb"@.len() == 8,
        "personal_nb"@.len() == 11 && "personal_nb"@[1] == 'e',
        "work_nb"@.len() == 7 && "work_nb"@[0] == 'w',
        "projects_nb"@.len() == 11 && "projects_nb"@[1] == 'r' && "projects_nb"@[0] == 'p',
        "daily_notes"@.len() == 11 && "daily_notes"@[1] == 'a' && "daily_notes"@[0] == 'd',
        "recipes"@.len() == 7 && "recipes"@[0] == 'r',
        "meetings"@.len() == 8 && "meetings"@[0] == 'm',
        "inbox_nb"@[0] == 'i',
        "ideas"@.len() == 5 && "ideas"@[4] == 's',
        "web_app"@.len() == 7 && "web_app"@[0] == 'w' && "web_app"@[1] == 'e',
        "work_nb"@[1] == 'o',
        "mobile_app"@.len() == 10,
        "note1"@.len() == 5 && "note1"@[4] == '1',
        "note2"@.len() == 5 && "note2"@[4] == '2',
        "note3"@.len() == 5 && "note3"@[4] == '3',
        "note4"@.len() == 5 && "note4"@[4] == '4',
        "note5"@.len() == 5 && "note5"@[4] == '5',
        "note6"@.len() == 5 && "note6"@[4] == '6',
        "note7"@.len() == 5 && "note7"@[4] == '7',
        "note8"@.len() == 5 && "note8"@[4] == '8',
{
    reveal_strlit("inbox_nb");
    reveal_strlit("personal_nb");
    reveal_strlit("work_nb");
    reveal_strlit("projects_nb");
    reveal_strlit("daily_notes");
    reveal_strlit("recipes");
    reveal_strlit("meetings");
    reveal_strlit("ideas");
    reveal_strlit("web_app");
    reveal_strlit("mobile_app");
    reveal_strlit("note1");
    reveal_strlit("note2");
    reveal_strlit("note3");
    reveal_strlit("note4");
    reveal_strlit("note5");
    reveal_strlit("note6");
    reveal_strlit("note7");
    reveal_strlit("note8");
}

proof fn lemma_seed_titles()
    ensures
        "Inbox"@.len() > 0 && "Inbox"@[0] == 'I',
        "Personal"@.len() > 0 && "Personal"@[0] == 'P',
        "Work"@.len() > 0 && "Work"@[0] == 'W',
        "Projects"@.len() > 0 && "Projects"@[0] == 'P',
        "Daily Notes"@.len() > 0 && "Daily Notes"@[0] == 'D',
        "Recipes"@.len() > 0 && "Recipes"@[0] == 'R',
        "Meetings"@.len() > 0 && "Meetings"@[0] == 'M',
        "Ideas"@.len() > 0 && "Ideas"@[0] == 'I',
        "Web App"@.len() > 0 && "Web App"@[0] == 'W',
        "Mobile App"@.len() > 0 && "Mobile App"@[0] == 'M',
        "Welcome to NexusNotes"@.len() > 0 && "Welcome to NexusNotes"@[0] == 'W',
        "Today's Goals"@.len() > 0 && "Today's Goals"@[0] == 'T',
        "Meeting Notes - Jan 12"@.len() > 0 && "Meeting Notes - Jan 12"@[0] == 'M',
        "Chocolate Chip Cookies"@.len() > 0 && "Chocolate Chip Cookies"@[0] == 'C',
        "Q1 Planning Session"@.len() > 0 && "Q1 Planning Session"@[0] == 'Q',
        "App Feature Ideas"@.len() > 0 && "App Feature Ideas"@[0] == 'A',
        "Tech Stack Decision"@.len() > 0 && "Tech Stack Decision"@[0] == 'T',
        "UI Mockups"@.len() > 0 && "UI Mockups"@[0] == 'U',
{
    reveal_strlit("Inbox");
    reveal_strlit("Personal");
    reveal_strlit("Work");
    reveal_strlit("Projects");
    reveal_strlit("Daily Notes");
    reveal_strlit("Recipes");
    reveal_strlit("Meetings");
    reveal_strlit("Ideas");
    reveal_strlit("Web App");
    reveal_strlit("Mobile App");
    reveal_strlit("Welcome to NexusNotes");
    reveal_strlit("Today's Goals");
    reveal_strlit("Meeting Notes - Jan 12");
    reveal_strlit("Chocolate Chip Cookies");
    reveal_strlit("Q1 Planning Session");
    reveal_strlit("App Feature Ideas");
    reveal_strlit("Tech Stack Decision");
    reveal_strlit("UI Mockups");
}

/// A text that begins with a letter is not blank.
proof fn lemma_not_blank(title: Seq<char>)
    requires
        title.len() > 0,
        !is_whitespace(title[0]),
    ensures
        !crate::text::is_blank(title),
{
}

/// A store without notebooks holds no notes and no tag associations.
pub proof fn lemma_empty_store(s: StoreView)
    requires
        s.wf(),
        s.notebooks.len() == 0,
    ensures
        s.notes.len() == 0,
        s.links.len() == 0,
{
    if s.notes.len() > 0 {
        assert(s.has_notebook(s.notes[0].notebook_id));
    }
    if s.links.len() > 0 {
        assert(s.has_note(s.links[0].note_id));
    }
}

/// The first content meets the constraints of the store.
pub proof fn lemma_seeded_wf(s: StoreView, now: Seq<char>)
    requires
        s.wf(),
        s.notebooks.len() == 0,
    ensures
        s.seeded(now).wf(),
        s.seeded(now).notebooks.len() == 10,
        s.seeded(now).notes.len() == 8,
{
    let t = s.seeded(now);
    let b = t.notebooks;
    let n = t.notes;
    lemma_empty_store(s);
    lemma_seed_ids();
    lemma_seed_titles();
    assert(b.len() == 10);
    assert(n.len() == 8);
    assert(b[0].id == "inbox_nb"@ && b[1].id == "personal_nb"@ && b[2].id == "work_nb"@ && b[3].id
        == "projects_nb"@ && b[4].id == "daily_notes"@ && b[5].id == "recipes"@ && b[6].id
        == "meetings"@ && b[7].id == "ideas"@ && b[8].id == "web_app"@ && b[9].id
        == "mobile_app"@);
    assert(n[0].id == "note1"@ && n[1].id == "note2"@ && n[2].id == "note3"@ && n[3].id
        == "note4"@ && n[4].id == "note5"@ && n[5].id == "note6"@ && n[6].id == "note7"@ && n[7].id
        == "note8"@);
    assert forall|i: int, j: int|
        #![trigger t.notebooks[i], t.notebooks[j]]
        0 <= i < j < t.notebooks.len() implies t.notebooks[i].id != t.notebooks[j].id by {
        assert(i == 0 || i == 1 || i == 2 || i == 3 || i == 4 || i == 5 || i == 6 || i == 7 || i
            == 8);
        assert(j == 1 || j == 2 || j == 3 || j == 4 || j == 5 || j == 6 || j == 7 || j == 8 || j
            == 9);
    }
    assert forall|i: int, j: int|
        #![trigger t.notes[i], t.notes[j]]
        0 <= i < j < t.notes.len() implies t.notes[i].id != t.notes[j].id by {
        assert(i == 0 || i == 1 || i == 2 || i == 3 || i == 4 || i == 5 || i == 6);
        assert(j == 1 || j == 2 || j == 3 || j == 4 || j == 5 || j == 6 || j == 7);
    }
    assert(t.has_notebook("inbox_nb"@)) by {
        assert(t.notebooks[0].id == "inbox_nb"@);
    }
    assert(t.has_notebook("personal_nb"@)) by {
        assert(t.notebooks[1].id == "personal_nb"@);
    }
    assert(t.has_notebook("work_nb"@)) by {
        assert(t.notebooks[2].id == "work_nb"@);
    }
    assert(t.has_notebook("projects_nb"@)) by {
        assert(t.notebooks[3].id == "projects_nb"@);
    }
    assert(t.has_notebook("daily_notes"@)) by {
        assert(t.notebooks[4].id == "daily_notes"@);
    }
    assert(t.has_notebook("recipes"@)) by {
        assert(t.notebooks[5].id == "recipes"@);
    }
    assert(t.has_notebook("meetings"@)) by {
        assert(t.notebooks[6].id == "meetings"@);
    }
    assert(t.has_notebook("ideas"@)) by {
        assert(t.notebooks[7].id == "ideas"@);
    }
    assert(t.has_notebook("web_app"@)) by {
        assert(t.notebooks[8].id == "web_app"@);
    }
    assert(t.has_notebook("mobile_app"@)) by {
        assert(t.notebooks[9].id == "mobile_app"@);
    }
    assert forall|i: int|
        0 <= i < t.notebooks.len() && (#[trigger] t.notebooks[i]).parent_id is Some implies t.has_notebook(
        t.notebooks[i].parent_id->0,
    ) by {
        assert(i == 0 || i == 1 || i == 2 || i == 3 || i == 4 || i == 5 || i == 6 || i == 7 || i
            == 8 || i == 9);
    }
    assert forall|i: int| 0 <= i < t.notes.len() implies t.has_notebook(
        (#[trigger] t.notes[i]).notebook_id,
    ) by {
        assert(i == 0 || i == 1 || i == 2 || i == 3 || i == 4 || i == 5 || i == 6 || i == 7);
    }
    assert forall|i: int| 0 <= i < t.notebooks.len() implies !crate::text::is_blank(
        (#[trigger] t.notebooks[i]).title,
    ) by {
        assert(i == 0 || i == 1 || i == 2 || i == 3 || i == 4 || i == 5 || i == 6 || i == 7 || i
            == 8 || i == 9);
        lemma_not_blank(t.notebooks[i].title);
    }
    assert forall|i: int| 0 <= i < t.notes.len() implies !crate::text::is_blank(
        (#[trigger] t.notes[i]).title,
    ) by {
        assert(i == 0 || i == 1 || i == 2 || i == 3 || i == 4 || i == 5 || i == 6 || i == 7);
        lemma_not_blank(t.notes[i].title);
    }
}

/// Making a store ready twice is the same as once: the second time finds
/// notebooks and changes nothing.
pub proof fn lemma_init_idempotent(s: StoreView, first: Seq<char>, second: Seq<char>)
    ensures
        s.initialized(first).initialized(second) == s.initialized(first),
{
    assert(seed_notebooks(first).len() == 10);
}

/// Makes the store ready for use: a store without notebooks gets the first
/// content, with `now` as the time of creation of every row; any other store
/// stays as it is.
pub fn init_db(store: &mut Store, now: &str)
    requires
        old(store).wf(),
    ensures
        final(store).wf(),
        final(store)@ == old(store)@.initialized(now@),
{
    if store.notebooks().len() > 0 {
        return ;
    }
    let ghost s = store@;
    let mut notebooks: Vec<Notebook> = Vec::new();
    notebooks.push(new_notebook("inbox_nb", None, "Inbox", "📥", 0, now));
    notebooks.push(new_notebook("personal_nb", None, "Personal", "👤", 1, now));
    notebooks.push(new_notebook("work_nb", None, "Work", "💼", 2, now));
    notebooks.push(new_notebook("projects_nb", None, "Projects", "🚀", 3, now));
    notebooks.push(new_notebook("daily_notes", Some("personal_nb"), "Daily Notes", "📅", 0, now));
    notebooks.push(new_notebook("recipes", Some("personal_nb"), "Recipes", "🍳", 1, now));
    notebooks.push(new_notebook("meetings", Some("work_nb"), "Meetings", "📝", 0, now));
    notebooks.push(new_notebook("ideas", Some("work_nb"), "Ideas", "💡", 1, now));
    notebooks.push(new_notebook("web_app", Some("projects_nb"), "Web App", "🌐", 0, now));
    notebooks.push(new_notebook("mobile_app", Some("projects_nb"), "Mobile App", "📱", 1, now));
    assert(views(notebooks@) =~= seed_notebooks(now@));
    let mut notes: Vec<Note> = Vec::new();
    notes.push(
        new_note(
            "note1",
            "inbox_nb",
            "Welcome to NexusNotes",
            "This is your inbox for quick captures!",
            now,
        ),
    );
    notes.push(
        new_note(
            "note2",
            "daily_notes",
            "Today's Goals",
            "- [ ] Review project updates\n- [ ] Call mom\n- [ ] Grocery shopping",
            now,
        ),
    );
    notes.push(
        new_note(
            "note3",
            "daily_notes",
            "Meeting Notes - Jan 12",
            "## Team Standup\n- Alice: Working on frontend\n- Bob: Database optimization",
            now,
        ),
    );
    notes.push(
        new_note(
            "note4",
            "recipes",
            "Chocolate Chip Cookies",
            "## Ingredients\n- 2 cups flour\n- 1 cup sugar\n- 1/2 cup butter\n\n## Instructions\n1. Preheat oven to 350°F",
            now,
        ),
    );
    notes.push(
        new_note(
            "note5",
            "meetings",
            "Q1 Planning Session",
            "## Agenda\n1. Review last quarter\n2. Set Q1 goals\n3. Resource allocation",
            now,
        ),
    );
    notes.push(
        new_note(
            "note6",
            "ideas",
            "App Feature Ideas",
            "- Dark mode toggle\n- Export to PDF\n- Real-time collaboration\n- Mobile app",
            now,
        ),
    );
    notes.push(
        new_note(
            "note7",
            "web_app",
            "Tech Stack Decision",
            "## Frontend\n- React vs Svelte\n- TypeScript\n\n## Backend\n- Node.js\n- PostgreSQL",
            now,
        ),
    );
    notes.push(
        new_note(
            "note8",
            "mobile_app",
            "UI Mockups",
            "Created initial wireframes for:\n- Login screen\n- Dashboard\n- Note editor",
            now,
        ),
    );
    assert(views(notes@) =~= seed_notes(now@));
    proof {
        lemma_seeded_wf(s, now@);
    }
    store.set_notebooks(notebooks);
    store.set_notes(notes);
}

} // verus!
