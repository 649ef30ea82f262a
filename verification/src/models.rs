//! The rows of the store, their mathematical views, and fresh identifiers.

use vstd::prelude::*;

verus! {

/// The text inside an optional string, if there is one.
pub open spec fn opt_text(o: Option<String>) -> Option<Seq<char>> {
    match o {
        Some(s) => Some(s@),
        None => None,
    }
}

/// The views of a sequence of rows, one for one.
pub open spec fn views<T: View>(rows: Seq<T>) -> Seq<T::V> {
    rows.map_values(|row: T| row@)
}

pub fn copy_opt_text(o: &Option<String>) -> (r: Option<String>)
    ensures
        opt_text(r) == opt_text(*o),
{
    match o {
        Some(s) => Some(s.clone()),
        None => None,
    }
}

pub fn opt_text_eq(a: &Option<String>, b: &Option<String>) -> (r: bool)
    ensures
        r == (opt_text(*a) == opt_text(*b)),
{
    match a {
        Some(x) => match b {
            Some(y) => *x == *y,
            None => false,
        },
        None => match b {
            Some(_) => false,
            None => true,
        },
    }
}

/// A node of the notebook tree.
#[derive(Debug, Clone, PartialEq, Eq)]
pub struct Notebook {
    pub id: String,
    pub parent_id: Option<String>,
    pub title: String,
    pub icon: Option<String>,
    pub sort_order: i32,
    pub created_at: String,
}

pub struct NotebookView {
    pub id: Seq<char>,
    pub parent_id: Option<Seq<char>>,
    pub title: Seq<char>,
    pub icon: Option<Seq<char>>,
    pub sort_order: int,
    pub created_at: Seq<char>,
}

impl View for Notebook {
    type V = NotebookView;

    open spec fn view(&self) -> NotebookView {
        NotebookView {
            id: self.id@,
            parent_id: opt_text(self.parent_id),
            title: self.title@,
            icon: opt_text(self.icon),
            sort_order: self.sort_order as int,
            created_at: self.created_at@,
        }
    }
}

impl Notebook {
    pub fn duplicate(&self) -> (r: Notebook)
        ensures
            r@ == self@,
    {
        Notebook {
            id: self.id.clone(),
            parent_id: copy_opt_text(&self.parent_id),
            title: self.title.clone(),
            icon: copy_opt_text(&self.icon),
            sort_order: self.sort_order,
            created_at: self.created_at.clone(),
        }
    }
}

/// A note inside a notebook.
#[derive(Debug, Clone, PartialEq, Eq)]
pub struct Note {
    pub id: String,
    pub notebook_id: String,
    pub title: String,
    pub markdown: String,
    pub priority: i32,
    pub date: Option<String>,
    pub created_at: String,
    pub updated_at: String,
}

pub struct NoteView {
    pub id: Seq<char>,
    pub notebook_id: Seq<char>,
    pub title: Seq<char>,
    pub markdown: Seq<char>,
    pub priority: int,
    pub date: Option<Seq<char>>,
    pub created_at: Seq<char>,
    pub updated_at: Seq<char>,
}

impl View for Note {
    type V = NoteView;

    open spec fn view(&self) -> NoteView {
        NoteView {
            id: self.id@,
            notebook_id: self.notebook_id@,
            title: self.title@,
            markdown: self.markdown@,
            priority: self.priority as int,
            date: opt_text(self.date),
            created_at: self.created_at@,
            updated_at: self.updated_at@,
        }
    }
}

impl Note {
    pub fn duplicate(&self) -> (r: Note)
        ensures
            r@ == self@,
    {
        Note {
            id: self.id.clone(),
            notebook_id: self.notebook_id.clone(),
            title: self.title.clone(),
            markdown: self.markdown.clone(),
            priority: self.priority,
            date: copy_opt_text(&self.date),
            created_at: self.created_at.clone(),
            updated_at: self.updated_at.clone(),
        }
    }
}

/// A tag; its name is unique in the store.
#[derive(Debug, Clone, PartialEq, Eq)]
pub struct Tag {
    pub id: String,
    pub name: String,
}

pub struct TagView {
    pub id: Seq<char>,
    pub name: Seq<char>,
}

impl View for Tag {
    type V = TagView;

    open spec fn view(&self) -> TagView {
        TagView { id: self.id@, name: self.name@ }
    }
}

impl Tag {
    pub fn duplicate(&self) -> (r: Tag)
        ensures
            r@ == self@,
    {
        Tag { id: self.id.clone(), name: self.name.clone() }
    }
}

/// The association of one note with one tag.
#[derive(Debug, Clone, PartialEq, Eq)]
pub struct NoteTag {
    pub note_id: String,
    pub tag_id: String,
}

pub struct NoteTagView {
    pub note_id: Seq<char>,
    pub tag_id: Seq<char>,
}

impl View for NoteTag {
    type V = NoteTagView;

    open spec fn view(&self) -> NoteTagView {
        NoteTagView { note_id: self.note_id@, tag_id: self.tag_id@ }
    }
}

impl NoteTag {
    pub fn duplicate(&self) -> (r: NoteTag)
        ensures
            r@ == self@,
    {
        NoteTag { note_id: self.note_id.clone(), tag_id: self.tag_id.clone() }
    }
}

/// One hit of a search: a note or a notebook.
#[derive(Debug, Clone, PartialEq, Eq)]
pub enum SearchResult {
    Note(Note),
    Notebook(Notebook),
}

pub enum SearchResultView {
    Note(NoteView),
    Notebook(NotebookView),
}

impl View for SearchResult {
    type V = SearchResultView;

    open spec fn view(&self) -> SearchResultView {
        match self {
            SearchResult::Note(n) => SearchResultView::Note(n@),
            SearchResult::Notebook(b) => SearchResultView::Notebook(b@),
        }
    }
}

/// Why an operation on the store was refused.
#[derive(Debug, Clone, Copy, PartialEq, Eq, Structural)]
pub enum StoreError {
    /// The title of a notebook is empty or white space only.
    EmptyNotebookTitle,
    /// The title of a note is empty or white space only.
    EmptyNoteTitle,
    /// A row with the same identifier is already stored.
    DuplicateId,
    /// The parent of a notebook is not a stored notebook.
    UnknownParent,
    /// The notebook of a note is not a stored notebook.
    UnknownNotebook,
    /// The note of a tag association is not a stored note.
    UnknownNote,
    /// The next position among the siblings does not fit the column.
    SortOrderOverflow,
}

impl StoreError {
    /// The text shown to the user.
    pub fn message(&self) -> (text: String)
        ensures
            text@ == match *self {
                StoreError::EmptyNotebookTitle => "Notebook title cannot be empty."@,
                StoreError::EmptyNoteTitle => "Note title cannot be empty."@,
                StoreError::DuplicateId => "A row with this identifier is already stored."@,
                StoreError::UnknownParent => "The parent notebook is not stored."@,
                StoreError::UnknownNotebook => "The notebook of the note is not stored."@,
                StoreError::UnknownNote => "The note is not stored."@,
                StoreError::SortOrderOverflow => "The position among the siblings is out of range."@,
            },
    {
        match self {
            StoreError::EmptyNotebookTitle => "Notebook title cannot be empty.".to_string(),
            StoreError::EmptyNoteTitle => "Note title cannot be empty.".to_string(),
            StoreError::DuplicateId => "A row with this identifier is already stored.".to_string(),
            StoreError::UnknownParent => "The parent notebook is not stored.".to_string(),
            StoreError::UnknownNotebook => "The notebook of the note is not stored.".to_string(),
            StoreError::UnknownNote => "The note is not stored.".to_string(),
            StoreError::SortOrderOverflow => "The position among the siblings is out of range.".to_string(),
        }
    }
}

pub open spec fn is_lower_hex(c: char) -> bool {
    ('0' <= c && c <= '9') || ('a' <= c && c <= 'f')
}

/// The hyphenated lower-case text of a random (version 4) UUID: 36
/// characters, hyphens after the 8th, 12th, 16th and 20th digit, the version
/// digit `4` and a variant digit from `8` to `b`.
pub open spec fn is_uuid_text(s: Seq<char>) -> bool {
    &&& s.len() == 36
    &&& forall|i: int|
        0 <= i < 36 ==> if i == 8 || i == 13 || i == 18 || i == 23 {
            #[trigger] s[i] == '-'
        } else {
            is_lower_hex(s[i])
        }
    &&& s[14] == '4'
    &&& (s[19] == '8' || s[19] == '9' || s[19] == 'a' || s[19] == 'b')
}

/// A fresh identifier: `uuid::Uuid::new_v4` printed by `to_string`. Taken on
/// trust: every outcome has the hyphenated lower-case shape of a version 4
/// UUID. Which one comes out is random, so nothing else is said of it.
#[verifier::external_body]
pub fn new_id() -> (id: String)
    ensures
        is_uuid_text(id@),
{
    uuid::Uuid::new_v4().to_string()
}

} // verus!
