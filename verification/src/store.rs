//! The store: four tables of rows and the constraints that hold between them.

use crate::models::{
    views, Note, NoteTag, NoteTagView, NoteView, Notebook, NotebookView, Tag, TagView,
};
use crate::text::{is_blank, text_is_blank};
use vstd::prelude::*;

verus! {

/// The store as plain sequences of rows, each table in the order in which its
/// rows were inserted.
pub struct StoreView {
    pub notebooks: Seq<NotebookView>,
    pub notes: Seq<NoteView>,
    pub tags: Seq<TagView>,
    pub links: Seq<NoteTagView>,
}

impl StoreView {
    pub open spec fn has_notebook(self, id: Seq<char>) -> bool {
        exists|i: int| 0 <= i < self.notebooks.len() && (#[trigger] self.notebooks[i]).id == id
    }

    pub open spec fn has_note(self, id: Seq<char>) -> bool {
        exists|i: int| 0 <= i < self.notes.len() && (#[trigger] self.notes[i]).id == id
    }

    pub open spec fn has_tag(self, id: Seq<char>) -> bool {
        exists|i: int| 0 <= i < self.tags.len() && (#[trigger] self.tags[i]).id == id
    }

    pub open spec fn has_tag_named(self, name: Seq<char>) -> bool {
        exists|i: int| 0 <= i < self.tags.len() && (#[trigger] self.tags[i]).name == name
    }

    pub open spec fn has_link(self, note_id: Seq<char>, tag_id: Seq<char>) -> bool {
        exists|i: int|
            0 <= i < self.links.len() && #[trigger] self.links[i] == (NoteTagView {
                note_id,
                tag_id,
            })
    }

    /// The stored notebook with this identifier. Meant for identifiers that
    /// `has_notebook` accepts.
    pub open spec fn notebook(self, id: Seq<char>) -> NotebookView {
        self.notebooks[choose|i: int|
            0 <= i < self.notebooks.len() && (#[trigger] self.notebooks[i]).id == id]
    }

    /// The stored note with this identifier. Meant for identifiers that
    /// `has_note` accepts.
    pub open spec fn note(self, id: Seq<char>) -> NoteView {
        self.notes[choose|i: int| 0 <= i < self.notes.len() && (#[trigger] self.notes[i]).id == id]
    }

    /// The stored tag with this name. Meant for names that `has_tag_named`
    /// accepts.
    pub open spec fn tag_named(self, name: Seq<char>) -> TagView {
        self.tags[choose|i: int| 0 <= i < self.tags.len() && (#[trigger] self.tags[i]).name == name]
    }

    /// No two rows of a table share a key.
    pub open spec fn keys_unique(self) -> bool {
        &&& forall|i: int, j: int|
            #![trigger self.notebooks[i], self.notebooks[j]]
            0 <= i < j < self.notebooks.len() ==> self.notebooks[i].id != self.notebooks[j].id
        &&& forall|i: int, j: int|
            #![trigger self.notes[i], self.notes[j]]
            0 <= i < j < self.notes.len() ==> self.notes[i].id != self.notes[j].id
        &&& forall|i: int, j: int|
            #![trigger self.tags[i], self.tags[j]]
            0 <= i < j < self.tags.len() ==> self.tags[i].id != self.tags[j].id
        &&& forall|i: int, j: int|
            #![trigger self.tags[i], self.tags[j]]
            0 <= i < j < self.tags.len() ==> self.tags[i].name != self.tags[j].name
        &&& forall|i: int, j: int|
            #![trigger self.links[i], self.links[j]]
            0 <= i < j < self.links.len() ==> self.links[i] != self.links[j]
    }

    /// Every reference from one row to another names a stored row.
    pub open spec fn references_hold(self) -> bool {
        &&& forall|i: int|
            0 <= i < self.notebooks.len() && (#[trigger] self.notebooks[i]).parent_id is Some
                ==> self.has_notebook(self.notebooks[i].parent_id->0)
        &&& forall|i: int|
            0 <= i < self.notes.len() ==> self.has_notebook((#[trigger] self.notes[i]).notebook_id)
        &&& forall|i: int|
            0 <= i < self.links.len() ==> self.has_note((#[trigger] self.links[i]).note_id)
                && self.has_tag(self.links[i].tag_id)
    }

    /// No notebook and no note has a blank title.
    pub open spec fn titles_present(self) -> bool {
        &&& forall|i: int|
            0 <= i < self.notebooks.len() ==> !is_blank((#[trigger] self.notebooks[i]).title)
        &&& forall|i: int| 0 <= i < self.notes.len() ==> !is_blank((#[trigger] self.notes[i]).title)
    }

    /// The constraints of the store: unique keys, valid references, titles.
    pub open spec fn wf(self) -> bool {
        &&& self.keys_unique()
        &&& self.references_hold()
        &&& self.titles_present()
    }
}

/// In a store with unique keys, the row found under an identifier is the row
/// that carries it.
pub proof fn lemma_notebook_found(s: StoreView, i: int)
    requires
        s.keys_unique(),
        0 <= i < s.notebooks.len(),
    ensures
        s.has_notebook(s.notebooks[i].id),
        s.notebook(s.notebooks[i].id) == s.notebooks[i],
{
    let id = s.notebooks[i].id;
    let k = choose|k: int| 0 <= k < s.notebooks.len() && (#[trigger] s.notebooks[k]).id == id;
    if k < i {
        assert(s.notebooks[k].id != s.notebooks[i].id);
    } else if i < k {
        assert(s.notebooks[i].id != s.notebooks[k].id);
    }
}

pub proof fn lemma_note_found(s: StoreView, i: int)
    requires
        s.keys_unique(),
        0 <= i < s.notes.len(),
    ensures
        s.has_note(s.notes[i].id),
        s.note(s.notes[i].id) == s.notes[i],
{
    let id = s.notes[i].id;
    let k = choose|k: int| 0 <= k < s.notes.len() && (#[trigger] s.notes[k]).id == id;
    if k < i {
        assert(s.notes[k].id != s.notes[i].id);
    } else if i < k {
        assert(s.notes[i].id != s.notes[k].id);
    }
}

pub proof fn lemma_tag_found(s: StoreView, i: int)
    requires
        s.keys_unique(),
        0 <= i < s.tags.len(),
    ensures
        s.has_tag_named(s.tags[i].name),
        s.tag_named(s.tags[i].name) == s.tags[i],
{
    let name = s.tags[i].name;
    let k = choose|k: int| 0 <= k < s.tags.len() && (#[trigger] s.tags[k]).name == name;
    if k < i {
        assert(s.tags[k].name != s.tags[i].name);
    } else if i < k {
        assert(s.tags[i].name != s.tags[k].name);
    }
}

/// Two notebook tables with the same identifiers, row by row, hold the same
/// notebooks.
pub proof fn lemma_notebook_ids_kept(s: StoreView, t: StoreView)
    requires
        t.notebooks.len() == s.notebooks.len(),
        forall|i: int|
            0 <= i < s.notebooks.len() ==> (#[trigger] t.notebooks[i]).id == s.notebooks[i].id,
    ensures
        forall|id: Seq<char>| #[trigger] t.has_notebook(id) == s.has_notebook(id),
{
    assert forall|id: Seq<char>| #[trigger] t.has_notebook(id) == s.has_notebook(id) by {
        if s.has_notebook(id) {
            let k = choose|k: int|
                0 <= k < s.notebooks.len() && (#[trigger] s.notebooks[k]).id == id;
            assert(t.notebooks[k].id == id);
        }
        if t.has_notebook(id) {
            let k = choose|k: int|
                0 <= k < t.notebooks.len() && (#[trigger] t.notebooks[k]).id == id;
            assert(s.notebooks[k].id == id);
        }
    }
}

/// Two note tables with the same identifiers, row by row, hold the same notes.
pub proof fn lemma_note_ids_kept(s: StoreView, t: StoreView)
    requires
        t.notes.len() == s.notes.len(),
        forall|i: int| 0 <= i < s.notes.len() ==> (#[trigger] t.notes[i]).id == s.notes[i].id,
    ensures
        forall|id: Seq<char>| #[trigger] t.has_note(id) == s.has_note(id),
{
    assert forall|id: Seq<char>| #[trigger] t.has_note(id) == s.has_note(id) by {
        if s.has_note(id) {
            let k = choose|k: int| 0 <= k < s.notes.len() && (#[trigger] s.notes[k]).id == id;
            assert(t.notes[k].id == id);
        }
        if t.has_note(id) {
            let k = choose|k: int| 0 <= k < t.notes.len() && (#[trigger] t.notes[k]).id == id;
            assert(s.notes[k].id == id);
        }
    }
}

/// A tag table that begins with the rows of another holds its tags.
pub proof fn lemma_tags_kept(s: StoreView, t: StoreView)
    requires
        s.tags.len() <= t.tags.len(),
        forall|i: int| 0 <= i < s.tags.len() ==> #[trigger] t.tags[i] == s.tags[i],
    ensures
        forall|id: Seq<char>| s.has_tag(id) ==> #[trigger] t.has_tag(id),
        forall|name: Seq<char>| s.has_tag_named(name) ==> #[trigger] t.has_tag_named(name),
{
    assert forall|id: Seq<char>| s.has_tag(id) implies #[trigger] t.has_tag(id) by {
        let k = choose|k: int| 0 <= k < s.tags.len() && (#[trigger] s.tags[k]).id == id;
        assert(t.tags[k].id == id);
    }
    assert forall|name: Seq<char>| s.has_tag_named(name) implies #[trigger] t.has_tag_named(
        name,
    ) by {
        let k = choose|k: int| 0 <= k < s.tags.len() && (#[trigger] s.tags[k]).name == name;
        assert(t.tags[k].name == name);
    }
}

/// The store. Its rows are reached through the accessors; every operation of
/// the library keeps `wf`.
#[derive(Debug, Clone, PartialEq, Eq)]
pub struct Store {
    notebooks: Vec<Notebook>,
    notes: Vec<Note>,
    tags: Vec<Tag>,
    links: Vec<NoteTag>,
}

impl View for Store {
    type V = StoreView;

    closed spec fn view(&self) -> StoreView {
        StoreView {
            notebooks: views(self.notebooks@),
            notes: views(self.notes@),
            tags: views(self.tags@),
            links: views(self.links@),
        }
    }
}

impl Store {
    pub open spec fn wf(&self) -> bool {
        self@.wf()
    }

    /// The empty store.
    pub fn new() -> (store: Store)
        ensures
            store.wf(),
            store@.notebooks.len() == 0,
            store@.notes.len() == 0,
            store@.tags.len() == 0,
            store@.links.len() == 0,
    {
        Store { notebooks: Vec::new(), notes: Vec::new(), tags: Vec::new(), links: Vec::new() }
    }

    pub fn notebooks(&self) -> (rows: &Vec<Notebook>)
        ensures
            views(rows@) == self@.notebooks,
    {
        &self.notebooks
    }

    pub fn notes(&self) -> (rows: &Vec<Note>)
        ensures
            views(rows@) == self@.notes,
    {
        &self.notes
    }

    pub fn tags(&self) -> (rows: &Vec<Tag>)
        ensures
            views(rows@) == self@.tags,
    {
        &self.tags
    }

    pub fn links(&self) -> (rows: &Vec<NoteTag>)
        ensures
            views(rows@) == self@.links,
    {
        &self.links
    }

    pub(crate) fn set_notebooks(&mut self, rows: Vec<Notebook>)
        ensures
            final(self)@ == (StoreView { notebooks: views(rows@), ..old(self)@ }),
    {
        self.notebooks = rows;
    }

    pub(crate) fn set_notes(&mut self, rows: Vec<Note>)
        ensures
            final(self)@ == (StoreView { notes: views(rows@), ..old(self)@ }),
    {
        self.notes = rows;
    }

    pub(crate) fn set_links(&mut self, rows: Vec<NoteTag>)
        ensures
            final(self)@ == (StoreView { links: views(rows@), ..old(self)@ }),
    {
        self.links = rows;
    }

    pub(crate) fn push_notebook(&mut self, row: Notebook)
        ensures
            final(self)@ == (StoreView {
                notebooks: old(self)@.notebooks.push(row@),
                ..old(self)@
            }),
    {
        self.notebooks.push(row);
        assert(views(self.notebooks@) =~= views(old(self).notebooks@).push(row@));
    }

    pub(crate) fn push_note(&mut self, row: Note)
        ensures
            final(self)@ == (StoreView { notes: old(self)@.notes.push(row@), ..old(self)@ }),
    {
        self.notes.push(row);
        assert(views(self.notes@) =~= views(old(self).notes@).push(row@));
    }

    pub(crate) fn push_tag(&mut self, row: Tag)
        ensures
            final(self)@ == (StoreView { tags: old(self)@.tags.push(row@), ..old(self)@ }),
    {
        self.tags.push(row);
        assert(views(self.tags@) =~= views(old(self).tags@).push(row@));
    }

    pub(crate) fn push_link(&mut self, row: NoteTag)
        ensures
            final(self)@ == (StoreView { links: old(self)@.links.push(row@), ..old(self)@ }),
    {
        self.links.push(row);
        assert(views(self.links@) =~= views(old(self).links@).push(row@));
    }

    /// The place of the notebook with this identifier, if it is stored.
    pub fn notebook_position(&self, id: &String) -> (r: Option<usize>)
        ensures
            r is Some <==> self@.has_notebook(id@),
            r matches Some(i) ==> i < self@.notebooks.len() && self@.notebooks[i as int].id == id@,
            r matches Some(i) ==> forall|k: int|
                0 <= k < i ==> (#[trigger] self@.notebooks[k]).id != id@,
    {
        let mut i: usize = 0;
        while i < self.notebooks.len()
            invariant
                i <= self.notebooks.len(),
                forall|k: int| 0 <= k < i ==> (#[trigger] self@.notebooks[k]).id != id@,
            decreases self.notebooks.len() - i,
        {
            if self.notebooks[i].id == *id {
                return Some(i);
            }
            i += 1;
        }
        None
    }

    /// The place of the note with this identifier, if it is stored.
    pub fn note_position(&self, id: &String) -> (r: Option<usize>)
        ensures
            r is Some <==> self@.has_note(id@),
            r matches Some(i) ==> i < self@.notes.len() && self@.notes[i as int].id == id@,
            r matches Some(i) ==> forall|k: int|
                0 <= k < i ==> (#[trigger] self@.notes[k]).id != id@,
    {
        let mut i: usize = 0;
        while i < self.notes.len()
            invariant
                i <= self.notes.len(),
                forall|k: int| 0 <= k < i ==> (#[trigger] self@.notes[k]).id != id@,
            decreases self.notes.len() - i,
        {
            if self.notes[i].id == *id {
                return Some(i);
            }
            i += 1;
        }
        None
    }

    /// The place of the tag with this identifier, if it is stored.
    pub fn tag_position(&self, id: &String) -> (r: Option<usize>)
        ensures
            r is Some <==> self@.has_tag(id@),
            r matches Some(i) ==> i < self@.tags.len() && self@.tags[i as int].id == id@,
            r matches Some(i) ==> forall|k: int|
                0 <= k < i ==> (#[trigger] self@.tags[k]).id != id@,
    {
        let mut i: usize = 0;
        while i < self.tags.len()
            invariant
                i <= self.tags.len(),
                forall|k: int| 0 <= k < i ==> (#[trigger] self@.tags[k]).id != id@,
            decreases self.tags.len() - i,
        {
            if self.tags[i].id == *id {
                assert(self@.tags[i as int].id == id@);
                return Some(i);
            }
            i += 1;
        }
        None
    }

    /// The place of the tag with this name, if it is stored.
    pub fn tag_position_by_name(&self, name: &String) -> (r: Option<usize>)
        ensures
            r is Some <==> self@.has_tag_named(name@),
            r matches Some(i) ==> i < self@.tags.len() && self@.tags[i as int].name == name@,
            r matches Some(i) ==> forall|k: int|
                0 <= k < i ==> (#[trigger] self@.tags[k]).name != name@,
    {
        let mut i: usize = 0;
        while i < self.tags.len()
            invariant
                i <= self.tags.len(),
                forall|k: int| 0 <= k < i ==> (#[trigger] self@.tags[k]).name != name@,
            decreases self.tags.len() - i,
        {
            if self.tags[i].name == *name {
                assert(self@.tags[i as int].name == name@);
                return Some(i);
            }
            i += 1;
        }
        None
    }

    /// The place of the association of the note with the tag, if it is stored.
    pub fn link_position(&self, note_id: &String, tag_id: &String) -> (r: Option<usize>)
        ensures
            r is Some <==> self@.has_link(note_id@, tag_id@),
            r matches Some(i) ==> i < self@.links.len() && self@.links[i as int] == (NoteTagView {
                note_id: note_id@,
                tag_id: tag_id@,
            }),
            r matches Some(i) ==> forall|k: int|
                0 <= k < i ==> #[trigger] self@.links[k] != (NoteTagView {
                    note_id: note_id@,
                    tag_id: tag_id@,
                }),
    {
        let mut i: usize = 0;
        while i < self.links.len()
            invariant
                i <= self.links.len(),
                forall|k: int|
                    0 <= k < i ==> #[trigger] self@.links[k] != (NoteTagView {
                        note_id: note_id@,
                        tag_id: tag_id@,
                    }),
            decreases self.links.len() - i,
        {
            if self.links[i].note_id == *note_id && self.links[i].tag_id == *tag_id {
                assert(self@.links[i as int] == (NoteTagView {
                    note_id: note_id@,
                    tag_id: tag_id@,
                }));
                return Some(i);
            }
            i += 1;
        }
        None
    }

    /// Whether the note carries the tag.
    pub fn is_linked(&self, note_id: &String, tag_id: &String) -> (r: bool)
        ensures
            r == self@.has_link(note_id@, tag_id@),
    {
        self.link_position(note_id, tag_id).is_some()
    }

    fn keys_are_unique(&self) -> (ok: bool)
        ensures
            ok == self@.keys_unique(),
    {
        let ghost s = self@;
        let mut j: usize = 0;
        while j < self.notebooks.len()
            invariant
                j <= self.notebooks.len(),
                s == self@,
                forall|a: int, b: int|
                    #![trigger s.notebooks[a], s.notebooks[b]]
                    0 <= a < b < j ==> s.notebooks[a].id != s.notebooks[b].id,
            decreases self.notebooks.len() - j,
        {
            match self.notebook_position(&self.notebooks[j].id) {
                Some(k) => {
                    if k != j {
                        assert(s.notebooks[k as int].id == s.notebooks[j as int].id);
                        return false;
                    }
                },
                None => {
                    assert(s.notebooks[j as int].id == self.notebooks[j as int].id@);
                    return false;
                },
            }
            j += 1;
        }
        let mut j: usize = 0;
        while j < self.notes.len()
            invariant
                j <= self.notes.len(),
                s == self@,
                forall|a: int, b: int|
                    #![trigger s.notes[a], s.notes[b]]
                    0 <= a < b < j ==> s.notes[a].id != s.notes[b].id,
            decreases self.notes.len() - j,
        {
            match self.note_position(&self.notes[j].id) {
                Some(k) => {
                    if k != j {
                        assert(s.notes[k as int].id == s.notes[j as int].id);
                        return false;
                    }
                },
                None => {
                    assert(s.notes[j as int].id == self.notes[j as int].id@);
                    return false;
                },
            }
            j += 1;
        }
        let mut j: usize = 0;
        while j < self.tags.len()
            invariant
                j <= self.tags.len(),
                s == self@,
                forall|a: int, b: int|
                    #![trigger s.tags[a], s.tags[b]]
                    0 <= a < b < j ==> s.tags[a].id != s.tags[b].id && s.tags[a].name
                        != s.tags[b].name,
            decreases self.tags.len() - j,
        {
            match self.tag_position(&self.tags[j].id) {
                Some(k) => {
                    if k != j {
                        assert(s.tags[k as int].id == s.tags[j as int].id);
                        return false;
                    }
                },
                None => {
                    assert(s.tags[j as int].id == self.tags[j as int].id@);
                    return false;
                },
            }
            match self.tag_position_by_name(&self.tags[j].name) {
                Some(k) => {
                    if k != j {
                        assert(s.tags[k as int].name == s.tags[j as int].name);
                        return false;
                    }
                },
                None => {
                    assert(s.tags[j as int].name == self.tags[j as int].name@);
                    return false;
                },
            }
            j += 1;
        }
        let mut j: usize = 0;
        while j < self.links.len()
            invariant
                j <= self.links.len(),
                s == self@,
                forall|a: int, b: int|
                    #![trigger s.links[a], s.links[b]]
                    0 <= a < b < j ==> s.links[a] != s.links[b],
            decreases self.links.len() - j,
        {
            match self.link_position(&self.links[j].note_id, &self.links[j].tag_id) {
                Some(k) => {
                    if k != j {
                        assert(s.links[k as int] == s.links[j as int]);
                        return false;
                    }
                },
                None => {
                    assert(s.links[j as int] == (NoteTagView {
                        note_id: self.links[j as int].note_id@,
                        tag_id: self.links[j as int].tag_id@,
                    }));
                    return false;
                },
            }
            j += 1;
        }
        true
    }

    fn references_are_valid(&self) -> (ok: bool)
        ensures
            ok == self@.references_hold(),
    {
        let ghost s = self@;
        let mut i: usize = 0;
        while i < self.notebooks.len()
            invariant
                i <= self.notebooks.len(),
                s == self@,
                forall|k: int|
                    0 <= k < i && (#[trigger] s.notebooks[k]).parent_id is Some ==> s.has_notebook(
                        s.notebooks[k].parent_id->0,
                    ),
            decreases self.notebooks.len() - i,
        {
            match &self.notebooks[i].parent_id {
                Some(p) => {
                    if self.notebook_position(p).is_none() {
                        assert(s.notebooks[i as int].parent_id is Some);
                        return false;
                    }
                },
                None => {},
            }
            i += 1;
        }
        let mut i: usize = 0;
        while i < self.notes.len()
            invariant
                i <= self.notes.len(),
                s == self@,
                forall|k: int| 0 <= k < i ==> s.has_notebook((#[trigger] s.notes[k]).notebook_id),
            decreases self.notes.len() - i,
        {
            if self.notebook_position(&self.notes[i].notebook_id).is_none() {
                assert(!s.has_notebook(s.notes[i as int].notebook_id));
                return false;
            }
            i += 1;
        }
        let mut i: usize = 0;
        while i < self.links.len()
            invariant
                i <= self.links.len(),
                s == self@,
                forall|k: int|
                    0 <= k < i ==> s.has_note((#[trigger] s.links[k]).note_id) && s.has_tag(
                        s.links[k].tag_id,
                    ),
            decreases self.links.len() - i,
        {
            if self.note_position(&self.links[i].note_id).is_none() || self.tag_position(
                &self.links[i].tag_id,
            ).is_none() {
                assert(!(s.has_note(s.links[i as int].note_id) && s.has_tag(
                    s.links[i as int].tag_id,
                )));
                return false;
            }
            i += 1;
        }
        true
    }

    fn titles_are_present(&self) -> (ok: bool)
        ensures
            ok == self@.titles_present(),
    {
        let ghost s = self@;
        let mut i: usize = 0;
        while i < self.notebooks.len()
            invariant
                i <= self.notebooks.len(),
                s == self@,
                forall|k: int| 0 <= k < i ==> !is_blank((#[trigger] s.notebooks[k]).title),
            decreases self.notebooks.len() - i,
        {
            if text_is_blank(self.notebooks[i].title.as_str()) {
                assert(is_blank(s.notebooks[i as int].title));
                return false;
            }
            i += 1;
        }
        let mut i: usize = 0;
        while i < self.notes.len()
            invariant
                i <= self.notes.len(),
                s == self@,
                forall|k: int| 0 <= k < i ==> !is_blank((#[trigger] s.notes[k]).title),
            decreases self.notes.len() - i,
        {
            if text_is_blank(self.notes[i].title.as_str()) {
                assert(is_blank(s.notes[i as int].title));
                return false;
            }
            i += 1;
        }
        true
    }

    /// A store of the given rows, if they meet the constraints: keys are
    /// unique, references name stored rows, and no title is blank.
    pub fn from_rows(notebooks: Vec<Notebook>, notes: Vec<Note>, tags: Vec<Tag>, links: Vec<
        NoteTag,
    >) -> (r: Option<Store>)
        ensures
            r is Some <==> (StoreView {
                notebooks: views(notebooks@),
                notes: views(notes@),
                tags: views(tags@),
                links: views(links@),
            }).wf(),
            r matches Some(store) ==> store.wf() && store@ == (StoreView {
                notebooks: views(notebooks@),
                notes: views(notes@),
                tags: views(tags@),
                links: views(links@),
            }),
    {
        let store = Store { notebooks, notes, tags, links };
        if store.keys_are_unique() && store.references_are_valid() && store.titles_are_present() {
            Some(store)
        } else {
            None
        }
    }

    /// The stored note with this identifier, if there is one.
    pub fn find_note(&self, id: &String) -> (r: Option<Note>)
        requires
            self.wf(),
        ensures
            r is Some <==> self@.has_note(id@),
            r matches Some(n) ==> n@ == self@.note(id@),
    {
        match self.note_position(id) {
            Some(i) => {
                proof {
                    lemma_note_found(self@, i as int);
                }
                Some(self.notes[i].duplicate())
            },
            None => None,
        }
    }

    /// The stored notebook with this identifier, if there is one.
    pub fn find_notebook(&self, id: &String) -> (r: Option<Notebook>)
        requires
            self.wf(),
        ensures
            r is Some <==> self@.has_notebook(id@),
            r matches Some(n) ==> n@ == self@.notebook(id@),
    {
        match self.notebook_position(id) {
            Some(i) => {
                proof {
                    lemma_notebook_found(self@, i as int);
                }
                Some(self.notebooks[i].duplicate())
            },
            None => None,
        }
    }
}

} // verus!
