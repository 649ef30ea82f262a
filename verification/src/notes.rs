//! Notes: listing the notes of a notebook, creating, updating and deleting.

use crate::models::{
    copy_opt_text, is_uuid_text, new_id, opt_text, views, Note, NoteTag, NoteTagView, NoteView,
    StoreError,
};
use crate::order::{
    arranged, lemma_arranged_rows, lemma_stable_order_sorts, precedes, sort_positions,
    stable_order, SortKey, SortKeyView,
};
use crate::seqs::{lemma_filter_keeps_pairs, lemma_filter_members, lemma_filter_take_step};
use crate::store::{
    lemma_note_found, lemma_note_ids_kept, lemma_notebook_ids_kept, lemma_tags_kept, Store,
    StoreView,
};
use crate::text::{chars_of, is_blank, lex_le, lex_lt, text_is_blank};
use vstd::prelude::*;

verus! {

/// What a caller hands in to create a note.
#[derive(Debug, Clone, PartialEq, Eq)]
pub struct NotePayload {
    pub title: String,
    pub notebook_id: String,
    pub markdown: String,
}

/// Notes are listed by the time of their last update.
pub open spec fn note_key(n: NoteView) -> SortKeyView {
    SortKeyView { rank: 0, text: n.updated_at }
}

pub open spec fn note_keys(rows: Seq<NoteView>) -> Seq<SortKeyView> {
    rows.map_values(|n: NoteView| note_key(n))
}

pub open spec fn in_notebook(notebook_id: Seq<char>) -> spec_fn(NoteView) -> bool {
    |n: NoteView| n.notebook_id == notebook_id
}

pub open spec fn other_note(id: Seq<char>) -> spec_fn(NoteView) -> bool {
    |n: NoteView| n.id != id
}

pub open spec fn link_of_other_note(id: Seq<char>) -> spec_fn(NoteTagView) -> bool {
    |l: NoteTagView| l.note_id != id
}

/// Why a note cannot be created, if it cannot.
pub open spec fn create_note_error(
    s: StoreView,
    id: Seq<char>,
    notebook_id: Seq<char>,
    title: Seq<char>,
) -> Option<StoreError> {
    if is_blank(title) {
        Some(StoreError::EmptyNoteTitle)
    } else if s.has_note(id) {
        Some(StoreError::DuplicateId)
    } else if !s.has_notebook(notebook_id) {
        Some(StoreError::UnknownNotebook)
    } else {
        None
    }
}

/// The row that creating a note stores: priority 0, no date, both times `now`.
pub open spec fn created_note(
    id: Seq<char>,
    notebook_id: Seq<char>,
    title: Seq<char>,
    markdown: Seq<char>,
    now: Seq<char>,
) -> NoteView {
    NoteView {
        id,
        notebook_id,
        title,
        markdown,
        priority: 0,
        date: None,
        created_at: now,
        updated_at: now,
    }
}

/// Creating a note from `before`: either it is refused and nothing changes,
/// or the new row is appended and handed back.
pub open spec fn creates_note(
    before: StoreView,
    id: Seq<char>,
    notebook_id: Seq<char>,
    title: Seq<char>,
    markdown: Seq<char>,
    now: Seq<char>,
    r: Result<Note, StoreError>,
    after: StoreView,
) -> bool {
    match create_note_error(before, id, notebook_id, title) {
        Some(e) => r == Err::<Note, StoreError>(e) && after == before,
        None => {
            &&& r is Ok
            &&& r->Ok_0@ == created_note(id, notebook_id, title, markdown, now)
            &&& after == (StoreView {
                notes: before.notes.push(created_note(id, notebook_id, title, markdown, now)),
                ..before
            })
        },
    }
}

/// The note `n` after an update of the note `id`: the four fields are
/// overwritten and the time of the update is `now`.
pub open spec fn updated(
    n: NoteView,
    id: Seq<char>,
    title: Seq<char>,
    markdown: Seq<char>,
    priority: int,
    date: Option<Seq<char>>,
    now: Seq<char>,
) -> NoteView {
    if n.id == id {
        NoteView { title, markdown, priority, date, updated_at: now, ..n }
    } else {
        n
    }
}

impl StoreView {
    /// The notes of a notebook, most recently updated first.
    pub open spec fn listed_notes(self, notebook_id: Seq<char>) -> Seq<NoteView> {
        arranged(
            self.notes.filter(in_notebook(notebook_id)),
            stable_order(note_keys(self.notes.filter(in_notebook(notebook_id))), true),
        )
    }

    pub open spec fn with_note_updated(
        self,
        id: Seq<char>,
        title: Seq<char>,
        markdown: Seq<char>,
        priority: int,
        date: Option<Seq<char>>,
        now: Seq<char>,
    ) -> StoreView {
        StoreView {
            notes: self.notes.map_values(
                |n: NoteView| updated(n, id, title, markdown, priority, date, now),
            ),
            ..self
        }
    }

    /// The store without the note `id` and its tag associations.
    pub open spec fn without_note(self, id: Seq<char>) -> StoreView {
        StoreView {
            notes: self.notes.filter(other_note(id)),
            links: self.links.filter(link_of_other_note(id)),
            ..self
        }
    }
}

/// A listing holds exactly the notes of the notebook, each once, and no note
/// stands behind one that was updated later.
pub proof fn lemma_listed_notes(s: StoreView, notebook_id: Seq<char>)
    ensures
        forall|k: int|
            0 <= k < s.notes.len() && (#[trigger] s.notes[k]).notebook_id == notebook_id
                ==> s.listed_notes(notebook_id).contains(s.notes[k]),
        forall|i: int|
            0 <= i < s.listed_notes(notebook_id).len() ==> s.notes.contains(
                #[trigger] s.listed_notes(notebook_id)[i],
            ) && s.listed_notes(notebook_id)[i].notebook_id == notebook_id,
        forall|i: int, j: int|
            #![trigger s.listed_notes(notebook_id)[i], s.listed_notes(notebook_id)[j]]
            0 <= i < j < s.listed_notes(notebook_id).len() ==> lex_le(
                s.listed_notes(notebook_id)[j].updated_at,
                s.listed_notes(notebook_id)[i].updated_at,
            ),
        s.listed_notes(notebook_id).len() == s.notes.filter(in_notebook(notebook_id)).len(),
{
    let rows = s.notes.filter(in_notebook(notebook_id));
    let keys = note_keys(rows);
    let out = s.listed_notes(notebook_id);
    lemma_filter_members(s.notes, in_notebook(notebook_id));
    lemma_arranged_rows(rows, keys, true);
    lemma_stable_order_sorts(keys, true);
    let order = stable_order(keys, true);
    assert forall|k: int|
        0 <= k < s.notes.len() && (#[trigger] s.notes[k]).notebook_id
            == notebook_id implies out.contains(s.notes[k]) by {
        assert(in_notebook(notebook_id)(s.notes[k]));
        assert(rows.contains(s.notes[k]));
        let a = choose|a: int| 0 <= a < rows.len() && rows[a] == s.notes[k];
        assert(out.contains(rows[a]));
    }
    assert forall|i: int| 0 <= i < out.len() implies s.notes.contains(#[trigger] out[i])
        && out[i].notebook_id == notebook_id by {
        assert(rows.contains(out[i]));
        let a = choose|a: int| 0 <= a < rows.len() && rows[a] == out[i];
        assert(in_notebook(notebook_id)(rows[a]));
        assert(s.notes.contains(rows[a]));
    }
    assert forall|i: int, j: int|
        #![trigger out[i], out[j]]
        0 <= i < j < out.len() implies lex_le(out[j].updated_at, out[i].updated_at) by {
        assert(0 <= order[i] < keys.len() && 0 <= order[j] < keys.len());
        assert(precedes(keys[order[i]], keys[order[j]], true));
    }
}

/// The notes of the notebook, most recently updated first; notes updated at
/// the same time keep the order in which they were stored.
pub fn get_notes(store: &Store, notebook_id: String) -> (out: Vec<Note>)
    ensures
        views(out@) == store@.listed_notes(notebook_id@),
        forall|k: int|
            0 <= k < store@.notes.len() && (#[trigger] store@.notes[k]).notebook_id
                == notebook_id@ ==> views(out@).contains(store@.notes[k]),
        forall|i: int|
            0 <= i < out@.len() ==> store@.notes.contains((#[trigger] out@[i])@)
                && out@[i]@.notebook_id == notebook_id@,
        forall|i: int, j: int|
            #![trigger out@[i], out@[j]]
            0 <= i < j < out@.len() ==> lex_le(out@[j]@.updated_at, out@[i]@.updated_at),
{
    let rows = store.notes();
    let ghost rv = views(rows@);
    let ghost pred = in_notebook(notebook_id@);
    let mut picked: Vec<usize> = Vec::new();
    let mut keys: Vec<SortKey> = Vec::new();
    let mut i: usize = 0;
    assert(rv.take(0) =~= Seq::<NoteView>::empty());
    assert(rv.take(0).filter(pred) =~= Seq::<NoteView>::empty()) by {
        rv.take(0).lemma_filter_len(pred);
    }
    while i < rows.len()
        invariant
            i <= rows.len(),
            rv == views(rows@),
            pred == in_notebook(notebook_id@),
            picked@.len() == keys@.len(),
            picked@.len() == rv.take(i as int).filter(pred).len(),
            forall|k: int|
                0 <= k < picked@.len() ==> (#[trigger] picked@[k]) < rows@.len() && rv[picked@[k] as int]
                    == rv.take(i as int).filter(pred)[k],
            forall|k: int|
                0 <= k < keys@.len() ==> (#[trigger] keys@[k])@ == note_key(
                    rv.take(i as int).filter(pred)[k],
                ),
        decreases rows.len() - i,
    {
        proof {
            lemma_filter_take_step(rv, pred, i as int);
        }
        if rows[i].notebook_id == notebook_id {
            picked.push(i);
            keys.push(SortKey { rank: 0, text: chars_of(rows[i].updated_at.as_str()) });
        }
        i += 1;
    }
    assert(rv.take(rows@.len() as int) =~= rv);
    let ghost chosen = rv.filter(pred);
    assert(views(keys@) =~= note_keys(chosen));
    let order = sort_positions(&keys, true);
    let ghost spec_order = stable_order(note_keys(chosen), true);
    let mut out: Vec<Note> = Vec::new();
    let mut i: usize = 0;
    while i < order.len()
        invariant
            i <= order.len(),
            rv == views(rows@),
            order@.len() == picked@.len(),
            chosen.len() == picked@.len(),
            order@.map_values(|p: usize| p as int) == spec_order,
            forall|k: int| 0 <= k < order@.len() ==> #[trigger] order@[k] < picked@.len(),
            forall|k: int|
                0 <= k < picked@.len() ==> (#[trigger] picked@[k]) < rows@.len() && rv[picked@[k] as int]
                    == chosen[k],
            out@.len() == i,
            forall|k: int| 0 <= k < i ==> (#[trigger] out@[k])@ == chosen[spec_order[k]],
        decreases order.len() - i,
    {
        assert(spec_order[i as int] == order@[i as int] as int);
        let at = picked[order[i]];
        out.push(rows[at].duplicate());
        i += 1;
    }
    proof {
        assert(views(out@) =~= store@.listed_notes(notebook_id@));
        lemma_listed_notes(store@, notebook_id@);
        let listed = store@.listed_notes(notebook_id@);
        assert forall|i: int| 0 <= i < out@.len() implies store@.notes.contains(
            (#[trigger] out@[i])@,
        ) && out@[i]@.notebook_id == notebook_id@ by {
            assert(out@[i]@ == listed[i]);
        }
        assert forall|i: int, j: int|
            #![trigger out@[i], out@[j]]
            0 <= i < j < out@.len() implies lex_le(out@[j]@.updated_at, out@[i]@.updated_at) by {
            assert(out@[i]@ == listed[i]);
            assert(out@[j]@ == listed[j]);
        }
    }
    out
}

/// Appending a note with a new key in a stored notebook keeps the
/// constraints.
proof fn lemma_push_note_wf(s: StoreView, row: NoteView)
    requires
        s.wf(),
        !s.has_note(row.id),
        s.has_notebook(row.notebook_id),
        !is_blank(row.title),
    ensures
        (StoreView { notes: s.notes.push(row), ..s }).wf(),
{
    let t = StoreView { notes: s.notes.push(row), ..s };
    lemma_notebook_ids_kept(s, t);
    lemma_tags_kept(s, t);
    assert forall|id: Seq<char>| s.has_note(id) implies t.has_note(id) by {
        let k = choose|k: int| 0 <= k < s.notes.len() && (#[trigger] s.notes[k]).id == id;
        assert(t.notes[k].id == id);
    }
    assert forall|i: int, j: int|
        #![trigger t.notes[i], t.notes[j]]
        0 <= i < j < t.notes.len() implies t.notes[i].id != t.notes[j].id by {
        if j < s.notes.len() {
            assert(s.notes[i].id != s.notes[j].id);
        } else {
            assert(s.notes[i].id != row.id);
        }
    }
    assert forall|i: int|
        0 <= i < t.notebooks.len() && (#[trigger] t.notebooks[i]).parent_id is Some implies t.has_notebook(
        t.notebooks[i].parent_id->0,
    ) by {
        assert(s.has_notebook(s.notebooks[i].parent_id->0));
    }
    assert forall|i: int| 0 <= i < t.notes.len() implies t.has_notebook(
        (#[trigger] t.notes[i]).notebook_id,
    ) by {
        if i < s.notes.len() {
            assert(s.has_notebook(s.notes[i].notebook_id));
        }
    }
    assert forall|i: int| 0 <= i < t.links.len() implies t.has_note(
        (#[trigger] t.links[i]).note_id,
    ) && t.has_tag(t.links[i].tag_id) by {
        assert(s.has_note(s.links[i].note_id) && s.has_tag(s.links[i].tag_id));
    }
    assert forall|i: int| 0 <= i < t.notes.len() implies !is_blank(
        (#[trigger] t.notes[i]).title,
    ) by {
        if i < s.notes.len() {
            assert(s.notes[i] == t.notes[i]);
        }
    }
}

/// Creates a note under the identifier `id`. The title may not be blank, the
/// identifier must be new and the notebook stored.
pub fn insert_note(
    store: &mut Store,
    id: String,
    notebook_id: String,
    title: String,
    markdown: String,
    now: &str,
) -> (r: Result<Note, StoreError>)
    requires
        old(store).wf(),
    ensures
        final(store).wf(),
        creates_note(old(store)@, id@, notebook_id@, title@, markdown@, now@, r, final(store)@),
{
    if text_is_blank(title.as_str()) {
        return Err(StoreError::EmptyNoteTitle);
    }
    if store.note_position(&id).is_some() {
        return Err(StoreError::DuplicateId);
    }
    if store.notebook_position(&notebook_id).is_none() {
        return Err(StoreError::UnknownNotebook);
    }
    let row = Note {
        id,
        notebook_id,
        title,
        markdown,
        priority: 0,
        date: None,
        created_at: now.to_string(),
        updated_at: now.to_string(),
    };
    let out = row.duplicate();
    proof {
        lemma_push_note_wf(store@, row@);
    }
    store.push_note(row);
    Ok(out)
}

/// Creates a note under a fresh identifier.
pub fn create_note(store: &mut Store, payload: NotePayload, now: &str) -> (r: Result<
    Note,
    StoreError,
>)
    requires
        old(store).wf(),
    ensures
        final(store).wf(),
        is_blank(payload.title@) ==> r == Err::<Note, StoreError>(StoreError::EmptyNoteTitle)
            && final(store)@ == old(store)@,
        exists|id: Seq<char>|
            is_uuid_text(id) && #[trigger] creates_note(
                old(store)@,
                id,
                payload.notebook_id@,
                payload.title@,
                payload.markdown@,
                now@,
                r,
                final(store)@,
            ),
{
    let id = new_id();
    let ghost chosen = id@;
    let r = insert_note(store, id, payload.notebook_id, payload.title, payload.markdown, now);
    assert(is_uuid_text(chosen));
    r
}

proof fn lemma_update_wf(
    s: StoreView,
    id: Seq<char>,
    title: Seq<char>,
    markdown: Seq<char>,
    priority: int,
    date: Option<Seq<char>>,
    now: Seq<char>,
)
    requires
        s.wf(),
        !is_blank(title),
    ensures
        s.with_note_updated(id, title, markdown, priority, date, now).wf(),
{
    let t = s.with_note_updated(id, title, markdown, priority, date, now);
    lemma_notebook_ids_kept(s, t);
    lemma_note_ids_kept(s, t);
    lemma_tags_kept(s, t);
    assert forall|i: int, j: int|
        #![trigger t.notes[i], t.notes[j]]
        0 <= i < j < t.notes.len() implies t.notes[i].id != t.notes[j].id by {
        assert(s.notes[i].id != s.notes[j].id);
    }
    assert forall|i: int|
        0 <= i < t.notebooks.len() && (#[trigger] t.notebooks[i]).parent_id is Some implies t.has_notebook(
        t.notebooks[i].parent_id->0,
    ) by {
        assert(s.has_notebook(s.notebooks[i].parent_id->0));
    }
    assert forall|i: int| 0 <= i < t.notes.len() implies t.has_notebook(
        (#[trigger] t.notes[i]).notebook_id,
    ) by {
        assert(s.has_notebook(s.notes[i].notebook_id));
    }
    assert forall|i: int| 0 <= i < t.links.len() implies t.has_note(
        (#[trigger] t.links[i]).note_id,
    ) && t.has_tag(t.links[i].tag_id) by {
        assert(s.has_note(s.links[i].note_id) && s.has_tag(s.links[i].tag_id));
    }
    assert forall|i: int| 0 <= i < t.notes.len() implies !is_blank(
        (#[trigger] t.notes[i]).title,
    ) by {
        assert(!is_blank(s.notes[i].title));
    }
}

/// Overwrites title, text, priority and date of the note `id` and sets the
/// time of its last update to `now`. A blank title is refused; a note that is
/// not stored is left alone, and that is no error.
pub fn update_note(
    store: &mut Store,
    id: String,
    title: String,
    markdown: String,
    priority: i32,
    date: Option<String>,
    now: &str,
) -> (r: Result<(), StoreError>)
    requires
        old(store).wf(),
    ensures
        final(store).wf(),
        is_blank(title@) ==> r == Err::<(), StoreError>(StoreError::EmptyNoteTitle)
            && final(store)@ == old(store)@,
        !is_blank(title@) ==> r is Ok && final(store)@ == old(store)@.with_note_updated(
            id@,
            title@,
            markdown@,
            priority as int,
            opt_text(date),
            now@,
        ),
{
    if text_is_blank(title.as_str()) {
        return Err(StoreError::EmptyNoteTitle);
    }
    let rows = store.notes();
    let ghost rv = views(rows@);
    let ghost dv = opt_text(date);
    let mut out: Vec<Note> = Vec::new();
    let mut i: usize = 0;
    while i < rows.len()
        invariant
            i <= rows.len(),
            rv == views(rows@),
            dv == opt_text(date),
            out@.len() == i,
            forall|k: int|
                0 <= k < i ==> (#[trigger] out@[k])@ == updated(
                    rv[k],
                    id@,
                    title@,
                    markdown@,
                    priority as int,
                    dv,
                    now@,
                ),
        decreases rows.len() - i,
    {
        let mut row = rows[i].duplicate();
        if row.id == id {
            row.title = title.clone();
            row.markdown = markdown.clone();
            row.priority = priority;
            row.date = copy_opt_text(&date);
            row.updated_at = now.to_string();
        }
        out.push(row);
        i += 1;
    }
    proof {
        assert(views(out@) =~= store@.with_note_updated(
            id@,
            title@,
            markdown@,
            priority as int,
            dv,
            now@,
        ).notes);
        lemma_update_wf(store@, id@, title@, markdown@, priority as int, dv, now@);
    }
    store.set_notes(out);
    Ok(())
}

/// Removing a note with its tag associations keeps the constraints.
pub proof fn lemma_without_note_wf(s: StoreView, id: Seq<char>)
    requires
        s.wf(),
    ensures
        s.without_note(id).wf(),
{
    let t = s.without_note(id);
    let nt = other_note(id);
    let lk = link_of_other_note(id);
    lemma_notebook_ids_kept(s, t);
    lemma_tags_kept(s, t);
    lemma_filter_members(s.notes, nt);
    lemma_filter_members(s.links, lk);
    let distinct_notes = |a: NoteView, b: NoteView| a.id != b.id;
    let distinct_links = |a: NoteTagView, b: NoteTagView| a != b;
    assert forall|i: int, j: int| 0 <= i < j < s.notes.len() implies #[trigger] distinct_notes(
        s.notes[i],
        s.notes[j],
    ) by {}
    assert forall|i: int, j: int| 0 <= i < j < s.links.len() implies #[trigger] distinct_links(
        s.links[i],
        s.links[j],
    ) by {}
    lemma_filter_keeps_pairs(s.notes, nt, distinct_notes);
    lemma_filter_keeps_pairs(s.links, lk, distinct_links);
    assert(t.keys_unique()) by {
        assert forall|i: int, j: int|
            #![trigger t.notes[i], t.notes[j]]
            0 <= i < j < t.notes.len() implies t.notes[i].id != t.notes[j].id by {
            assert(distinct_notes(t.notes[i], t.notes[j]));
        }
        assert forall|i: int, j: int|
            #![trigger t.links[i], t.links[j]]
            0 <= i < j < t.links.len() implies t.links[i] != t.links[j] by {
            assert(distinct_links(t.links[i], t.links[j]));
        }
    }
    assert forall|i: int|
        0 <= i < t.notebooks.len() && (#[trigger] t.notebooks[i]).parent_id is Some implies t.has_notebook(
        t.notebooks[i].parent_id->0,
    ) by {
        assert(s.has_notebook(s.notebooks[i].parent_id->0));
    }
    assert forall|i: int| 0 <= i < t.notes.len() implies t.has_notebook(
        (#[trigger] t.notes[i]).notebook_id,
    ) && !is_blank(t.notes[i].title) by {
        assert(s.notes.contains(t.notes[i]));
        let a = choose|a: int| 0 <= a < s.notes.len() && s.notes[a] == t.notes[i];
        assert(s.has_notebook(s.notes[a].notebook_id));
        assert(!is_blank(s.notes[a].title));
    }
    assert forall|i: int| 0 <= i < t.links.len() implies t.has_note(
        (#[trigger] t.links[i]).note_id,
    ) && t.has_tag(t.links[i].tag_id) by {
        let l = t.links[i];
        assert(lk(l));
        assert(s.links.contains(l));
        let a = choose|a: int| 0 <= a < s.links.len() && s.links[a] == l;
        assert(s.has_note(s.links[a].note_id) && s.has_tag(s.links[a].tag_id));
        let b = choose|b: int| 0 <= b < s.notes.len() && (#[trigger] s.notes[b]).id == l.note_id;
        assert(nt(s.notes[b]));
        assert(t.notes.contains(s.notes[b]));
        let c = choose|c: int| 0 <= c < t.notes.len() && t.notes[c] == s.notes[b];
        assert(t.notes[c].id == l.note_id);
    }
    assert forall|i: int| 0 <= i < t.notebooks.len() implies !is_blank(
        (#[trigger] t.notebooks[i]).title,
    ) by {
        assert(!is_blank(s.notebooks[i].title));
    }
}

/// Deletes the note `id` and its tag associations. Tags stay. A note that is
/// not stored leaves the store as it is.
pub fn delete_note(store: &mut Store, id: String)
    requires
        old(store).wf(),
    ensures
        final(store).wf(),
        final(store)@ == old(store)@.without_note(id@),
{
    let ghost s = store@;
    let rows = store.notes();
    let ghost rv = views(rows@);
    let mut kept: Vec<Note> = Vec::new();
    let mut i: usize = 0;
    assert(rv.take(0).filter(other_note(id@)) =~= Seq::<NoteView>::empty()) by {
        rv.take(0).lemma_filter_len(other_note(id@));
    }
    while i < rows.len()
        invariant
            i <= rows.len(),
            rv == views(rows@),
            views(kept@) == rv.take(i as int).filter(other_note(id@)),
        decreases rows.len() - i,
    {
        proof {
            lemma_filter_take_step(rv, other_note(id@), i as int);
        }
        if rows[i].id != id {
            let row = rows[i].duplicate();
            assert(views(kept@.push(row)) =~= views(kept@).push(row@));
            kept.push(row);
        }
        i += 1;
    }
    assert(rv.take(rows@.len() as int) =~= rv);
    let links = store.links();
    let ghost lv = views(links@);
    let mut kept_links: Vec<NoteTag> = Vec::new();
    let mut i: usize = 0;
    assert(lv.take(0).filter(link_of_other_note(id@)) =~= Seq::<NoteTagView>::empty()) by {
        lv.take(0).lemma_filter_len(link_of_other_note(id@));
    }
    while i < links.len()
        invariant
            i <= links.len(),
            lv == views(links@),
            views(kept_links@) == lv.take(i as int).filter(link_of_other_note(id@)),
        decreases links.len() - i,
    {
        proof {
            lemma_filter_take_step(lv, link_of_other_note(id@), i as int);
        }
        if links[i].note_id != id {
            let row = links[i].duplicate();
            assert(views(kept_links@.push(row)) =~= views(kept_links@).push(row@));
            kept_links.push(row);
        }
        i += 1;
    }
    assert(lv.take(links@.len() as int) =~= lv);
    proof {
        lemma_without_note_wf(s, id@);
    }
    store.set_notes(kept);
    store.set_links(kept_links);
}

/// An update shows when the note is read again: the note carries the new
/// fields, the time of its creation is as before, and the time of its last
/// update is `now`, later than it was. This is stated for a clock that has
/// moved on since the note was last written.
pub proof fn lemma_update_refreshes(
    s: StoreView,
    id: Seq<char>,
    title: Seq<char>,
    markdown: Seq<char>,
    priority: int,
    date: Option<Seq<char>>,
    now: Seq<char>,
)
    requires
        s.wf(),
        s.has_note(id),
        !is_blank(title),
        lex_lt(s.note(id).updated_at, now),
    ensures
        ({
            let t = s.with_note_updated(id, title, markdown, priority, date, now);
            &&& t.has_note(id)
            &&& t.note(id) == updated(s.note(id), id, title, markdown, priority, date, now)
            &&& t.note(id).created_at == s.note(id).created_at
            &&& t.note(id).notebook_id == s.note(id).notebook_id
            &&& t.note(id).markdown == markdown
            &&& t.note(id).updated_at == now
            &&& lex_lt(s.note(id).updated_at, t.note(id).updated_at)
        }),
{
    let t = s.with_note_updated(id, title, markdown, priority, date, now);
    lemma_update_wf(s, id, title, markdown, priority, date, now);
    let k = choose|k: int| 0 <= k < s.notes.len() && (#[trigger] s.notes[k]).id == id;
    lemma_note_found(s, k);
    assert(t.notes[k].id == id);
    lemma_note_found(t, k);
}

/// A new note is found in the next listing of its notebook, before every
/// note that was last updated earlier than it was created.
pub proof fn lemma_created_note_is_listed(
    s: StoreView,
    id: Seq<char>,
    notebook_id: Seq<char>,
    title: Seq<char>,
    markdown: Seq<char>,
    now: Seq<char>,
)
    requires
        s.wf(),
        create_note_error(s, id, notebook_id, title) is None,
    ensures
        ({
            let row = created_note(id, notebook_id, title, markdown, now);
            let t = StoreView { notes: s.notes.push(row), ..s };
            let listed = t.listed_notes(notebook_id);
            exists|i: int|
                0 <= i < listed.len() && #[trigger] listed[i] == row && forall|j: int|
                    0 <= j < listed.len() && lex_lt((#[trigger] listed[j]).updated_at, now) ==> i
                        < j
        }),
{
    let row = created_note(id, notebook_id, title, markdown, now);
    let t = StoreView { notes: s.notes.push(row), ..s };
    let listed = t.listed_notes(notebook_id);
    lemma_listed_notes(t, notebook_id);
    assert(t.notes[s.notes.len() as int] == row);
    assert(listed.contains(row));
    let i = choose|i: int| 0 <= i < listed.len() && listed[i] == row;
    crate::text::lemma_lex_le_reflexive(now);
    assert forall|j: int|
        0 <= j < listed.len() && lex_lt((#[trigger] listed[j]).updated_at, now) implies i < j by {
        if j < i {
            assert(lex_le(listed[i].updated_at, listed[j].updated_at));
        }
    }
}

} // verus!
