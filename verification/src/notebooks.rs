//! The notebook tree: listing, creating, renaming, moving and deleting.

use crate::models::{
    copy_opt_text, is_uuid_text, new_id, opt_text, opt_text_eq, views, Notebook, NotebookView,
    StoreError,
};
use crate::order::{
    arranged, lemma_arranged_rows, lemma_stable_order_sorts, precedes, sort_positions,
    stable_order, SortKey, SortKeyView,
};
use crate::models::{Note, NoteTag, NoteTagView, NoteView};
use crate::seqs::{lemma_filter_keeps_pairs, lemma_filter_members, lemma_filter_take_step};
use crate::store::{
    lemma_note_found, lemma_note_ids_kept, lemma_notebook_ids_kept, lemma_tags_kept, Store,
    StoreView,
};
use crate::text::{chars_of, is_blank, text_is_blank};
use crate::tree::{lemma_child_in_subtree, lemma_root_in_subtree, subtree_marks};
use vstd::prelude::*;

verus! {

/// What a caller hands in to create a notebook.
#[derive(Debug, Clone, PartialEq, Eq)]
pub struct NotebookPayload {
    pub id: Option<String>,
    pub parent_id: Option<String>,
    pub title: String,
    pub icon: Option<String>,
}

/// Notebooks are listed by their position among the siblings, and between
/// equal positions by the time of their creation.
pub open spec fn notebook_key(n: NotebookView) -> SortKeyView {
    SortKeyView { rank: n.sort_order, text: n.created_at }
}

pub open spec fn notebook_keys(rows: Seq<NotebookView>) -> Seq<SortKeyView> {
    rows.map_values(|n: NotebookView| notebook_key(n))
}

/// The largest position among the rows whose parent is `parent`, if there is
/// such a row.
pub open spec fn max_sibling_order(rows: Seq<NotebookView>, parent: Option<Seq<char>>) -> Option<
    int,
>
    decreases rows.len(),
{
    if rows.len() == 0 {
        None
    } else {
        let rest = max_sibling_order(rows.drop_last(), parent);
        let last = rows.last();
        if last.parent_id == parent {
            match rest {
                Some(m) => Some(
                    if last.sort_order > m {
                        last.sort_order
                    } else {
                        m
                    },
                ),
                None => Some(last.sort_order),
            }
        } else {
            rest
        }
    }
}

/// The position of a new notebook under `parent`: one behind the last
/// sibling, and 1 for a first child.
pub open spec fn next_sort_order(rows: Seq<NotebookView>, parent: Option<Seq<char>>) -> int {
    match max_sibling_order(rows, parent) {
        Some(m) => m + 1,
        None => 1,
    }
}

/// The largest sibling position is the position of a sibling and no sibling
/// has a larger one; there is none exactly when there is no sibling.
pub proof fn lemma_max_sibling_order(rows: Seq<NotebookView>, parent: Option<Seq<char>>)
    ensures
        match max_sibling_order(rows, parent) {
            Some(m) => {
                &&& exists|i: int|
                    0 <= i < rows.len() && (#[trigger] rows[i]).parent_id == parent
                        && rows[i].sort_order == m
                &&& forall|i: int|
                    0 <= i < rows.len() && (#[trigger] rows[i]).parent_id == parent
                        ==> rows[i].sort_order <= m
            },
            None => forall|i: int| 0 <= i < rows.len() ==> (#[trigger] rows[i]).parent_id != parent,
        },
    decreases rows.len(),
{
    if rows.len() > 0 {
        let rest = rows.drop_last();
        lemma_max_sibling_order(rest, parent);
        assert forall|i: int| 0 <= i < rest.len() implies #[trigger] rest[i] == rows[i] by {}
        match max_sibling_order(rest, parent) {
            Some(m) => {
                let w = choose|i: int|
                    0 <= i < rest.len() && (#[trigger] rest[i]).parent_id == parent
                        && rest[i].sort_order == m;
                assert(rows[w] == rest[w]);
                if rows.last().parent_id == parent && rows.last().sort_order > m {
                    assert(rows[rows.len() - 1].sort_order == rows.last().sort_order);
                }
                assert forall|i: int|
                    0 <= i < rows.len() && (#[trigger] rows[i]).parent_id == parent implies rows[i].sort_order
                    <= max_sibling_order(rows, parent)->0 by {
                    if i < rest.len() {
                        assert(rest[i] == rows[i]);
                    }
                }
            },
            None => {
                if rows.last().parent_id == parent {
                    assert(rows[rows.len() - 1].sort_order == rows.last().sort_order);
                }
                assert forall|i: int| 0 <= i < rows.len() && (#[trigger] rows[i]).parent_id
                    == parent implies i == rows.len() - 1 by {
                    if i < rest.len() {
                        assert(rest[i] == rows[i]);
                    }
                }
            },
        }
    }
}

/// Why a notebook cannot be created, if it cannot.
pub open spec fn create_notebook_error(
    s: StoreView,
    id: Seq<char>,
    parent: Option<Seq<char>>,
    title: Seq<char>,
) -> Option<StoreError> {
    if is_blank(title) {
        Some(StoreError::EmptyNotebookTitle)
    } else if s.has_notebook(id) {
        Some(StoreError::DuplicateId)
    } else if parent is Some && !s.has_notebook(parent->0) {
        Some(StoreError::UnknownParent)
    } else if next_sort_order(s.notebooks, parent) > i32::MAX {
        Some(StoreError::SortOrderOverflow)
    } else {
        None
    }
}

/// The row that creating a notebook stores.
pub open spec fn created_notebook(
    s: StoreView,
    id: Seq<char>,
    parent: Option<Seq<char>>,
    title: Seq<char>,
    icon: Option<Seq<char>>,
    now: Seq<char>,
) -> NotebookView {
    NotebookView {
        id,
        parent_id: parent,
        title,
        icon,
        sort_order: next_sort_order(s.notebooks, parent),
        created_at: now,
    }
}

/// Creating a notebook from `before`: either it is refused and nothing
/// changes, or the new row is appended and handed back.
pub open spec fn creates_notebook(
    before: StoreView,
    id: Seq<char>,
    parent: Option<Seq<char>>,
    title: Seq<char>,
    icon: Option<Seq<char>>,
    now: Seq<char>,
    r: Result<Notebook, StoreError>,
    after: StoreView,
) -> bool {
    match create_notebook_error(before, id, parent, title) {
        Some(e) => r == Err::<Notebook, StoreError>(e) && after == before,
        None => {
            &&& r is Ok
            &&& r->Ok_0@ == created_notebook(before, id, parent, title, icon, now)
            &&& after == (StoreView {
                notebooks: before.notebooks.push(
                    created_notebook(before, id, parent, title, icon, now),
                ),
                ..before
            })
        },
    }
}

/// The identifier of a new row: the one the caller gave, or else a fresh one.
pub open spec fn chosen_id(given: Option<String>, id: Seq<char>) -> bool {
    match given {
        Some(g) => id == g@,
        None => is_uuid_text(id),
    }
}

pub open spec fn renamed(n: NotebookView, id: Seq<char>, title: Seq<char>) -> NotebookView {
    if n.id == id {
        NotebookView { title, ..n }
    } else {
        n
    }
}

pub open spec fn reparented(n: NotebookView, id: Seq<char>, parent: Option<Seq<char>>) -> NotebookView {
    if n.id == id {
        NotebookView { parent_id: parent, ..n }
    } else {
        n
    }
}

/// Why a notebook cannot be moved, if it cannot: a stored notebook needs a
/// stored parent. Moving one that is not stored changes nothing and is no
/// error.
pub open spec fn move_notebook_error(
    s: StoreView,
    id: Seq<char>,
    parent: Option<Seq<char>>,
) -> Option<StoreError> {
    if s.has_notebook(id) && parent is Some && !s.has_notebook(parent->0) {
        Some(StoreError::UnknownParent)
    } else {
        None
    }
}

impl StoreView {
    /// All notebooks in the order of a listing.
    pub open spec fn listed_notebooks(self) -> Seq<NotebookView> {
        arranged(self.notebooks, stable_order(notebook_keys(self.notebooks), false))
    }

    pub open spec fn with_notebook_renamed(self, id: Seq<char>, title: Seq<char>) -> StoreView {
        StoreView {
            notebooks: self.notebooks.map_values(|n: NotebookView| renamed(n, id, title)),
            ..self
        }
    }

    pub open spec fn with_notebook_moved(self, id: Seq<char>, parent: Option<Seq<char>>) -> StoreView {
        StoreView {
            notebooks: self.notebooks.map_values(|n: NotebookView| reparented(n, id, parent)),
            ..self
        }
    }

    /// The store without `root`, its descendants, the notes in them and the
    /// tag associations of those notes.
    pub open spec fn without_notebook(self, root: Seq<char>) -> StoreView {
        StoreView {
            notebooks: self.notebooks.filter(self.notebook_outside(root)),
            notes: self.notes.filter(self.note_outside(root)),
            tags: self.tags,
            links: self.links.filter(self.link_outside(root)),
        }
    }
}

/// A listing holds every notebook once, and no notebook stands behind one
/// that the order puts later.
pub proof fn lemma_listed_notebooks(s: StoreView)
    ensures
        s.listed_notebooks().len() == s.notebooks.len(),
        forall|k: int|
            0 <= k < s.notebooks.len() ==> s.listed_notebooks().contains(#[trigger] s.notebooks[k]),
        forall|i: int|
            0 <= i < s.notebooks.len() ==> s.notebooks.contains(#[trigger] s.listed_notebooks()[i]),
        forall|i: int, j: int|
            #![trigger s.listed_notebooks()[i], s.listed_notebooks()[j]]
            0 <= i < j < s.notebooks.len() ==> precedes(
                notebook_key(s.listed_notebooks()[i]),
                notebook_key(s.listed_notebooks()[j]),
                false,
            ),
{
    let keys = notebook_keys(s.notebooks);
    lemma_arranged_rows(s.notebooks, keys, false);
    lemma_stable_order_sorts(keys, false);
    let order = stable_order(keys, false);
    assert forall|i: int, j: int|
        #![trigger s.listed_notebooks()[i], s.listed_notebooks()[j]]
        0 <= i < j < s.notebooks.len() implies precedes(
        notebook_key(s.listed_notebooks()[i]),
        notebook_key(s.listed_notebooks()[j]),
        false,
    ) by {
        assert(0 <= order[i] < keys.len() && 0 <= order[j] < keys.len());
        assert(precedes(keys[order[i]], keys[order[j]], false));
    }
}

/// All notebooks, by position among their siblings and then by creation time;
/// notebooks that agree in both keep the order in which they were stored.
pub fn get_notebooks(store: &Store) -> (out: Vec<Notebook>)
    ensures
        views(out@) == store@.listed_notebooks(),
        out@.len() == store@.notebooks.len(),
        forall|k: int|
            0 <= k < store@.notebooks.len() ==> views(out@).contains(#[trigger] store@.notebooks[k]),
        forall|i: int, j: int|
            #![trigger out@[i], out@[j]]
            0 <= i < j < out@.len() ==> precedes(
                notebook_key(out@[i]@),
                notebook_key(out@[j]@),
                false,
            ),
{
    let rows = store.notebooks();
    let ghost rv = views(rows@);
    let mut keys: Vec<SortKey> = Vec::new();
    let mut i: usize = 0;
    while i < rows.len()
        invariant
            i <= rows.len(),
            rv == views(rows@),
            keys@.len() == i,
            forall|k: int| 0 <= k < i ==> (#[trigger] keys@[k])@ == notebook_key(rv[k]),
        decreases rows.len() - i,
    {
        keys.push(SortKey { rank: rows[i].sort_order, text: chars_of(rows[i].created_at.as_str()) });
        i += 1;
    }
    assert(views(keys@) =~= notebook_keys(rv));
    let order = sort_positions(&keys, false);
    let ghost spec_order = stable_order(notebook_keys(rv), false);
    let mut out: Vec<Notebook> = Vec::new();
    let mut i: usize = 0;
    while i < order.len()
        invariant
            i <= order.len(),
            rv == views(rows@),
            order@.len() == rows@.len(),
            order@.map_values(|p: usize| p as int) == spec_order,
            forall|k: int| 0 <= k < order@.len() ==> #[trigger] order@[k] < rows@.len(),
            out@.len() == i,
            forall|k: int| 0 <= k < i ==> (#[trigger] out@[k])@ == rv[spec_order[k]],
        decreases order.len() - i,
    {
        assert(spec_order[i as int] == order@[i as int] as int);
        out.push(rows[order[i]].duplicate());
        i += 1;
    }
    proof {
        assert(views(out@) =~= store@.listed_notebooks());
        lemma_listed_notebooks(store@);
        assert forall|i: int, j: int|
            #![trigger out@[i], out@[j]]
            0 <= i < j < out@.len() implies precedes(
            notebook_key(out@[i]@),
            notebook_key(out@[j]@),
            false,
        ) by {
            assert(out@[i]@ == store@.listed_notebooks()[i]);
            assert(out@[j]@ == store@.listed_notebooks()[j]);
        }
    }
    out
}

fn max_sibling(rows: &Vec<Notebook>, parent: &Option<String>) -> (r: Option<i32>)
    ensures
        match r {
            Some(m) => max_sibling_order(views(rows@), opt_text(*parent)) == Some(m as int),
            None => max_sibling_order(views(rows@), opt_text(*parent)) is None,
        },
{
    let ghost rv = views(rows@);
    let ghost pv = opt_text(*parent);
    let mut best: Option<i32> = None;
    let mut i: usize = 0;
    while i < rows.len()
        invariant
            i <= rows.len(),
            rv == views(rows@),
            pv == opt_text(*parent),
            match best {
                Some(m) => max_sibling_order(rv.take(i as int), pv) == Some(m as int),
                None => max_sibling_order(rv.take(i as int), pv) is None,
            },
        decreases rows.len() - i,
    {
        proof {
            assert(rv.take(i + 1).drop_last() =~= rv.take(i as int));
            assert(rv.take(i + 1).last() == rv[i as int]);
        }
        if opt_text_eq(&rows[i].parent_id, parent) {
            let order = rows[i].sort_order;
            best = match best {
                Some(m) => Some(if order > m { order } else { m }),
                None => Some(order),
            };
        }
        i += 1;
    }
    assert(rv.take(rows@.len() as int) =~= rv);
    best
}

/// Appending a row with a new key and a stored parent keeps the constraints.
proof fn lemma_push_notebook_wf(s: StoreView, row: NotebookView)
    requires
        s.wf(),
        !s.has_notebook(row.id),
        row.parent_id is Some ==> s.has_notebook(row.parent_id->0),
        !is_blank(row.title),
    ensures
        (StoreView { notebooks: s.notebooks.push(row), ..s }).wf(),
{
    let t = StoreView { notebooks: s.notebooks.push(row), ..s };
    assert forall|id: Seq<char>| s.has_notebook(id) implies t.has_notebook(id) by {
        let k = choose|k: int| 0 <= k < s.notebooks.len() && (#[trigger] s.notebooks[k]).id == id;
        assert(t.notebooks[k].id == id);
    }
    assert forall|i: int, j: int|
        #![trigger t.notebooks[i], t.notebooks[j]]
        0 <= i < j < t.notebooks.len() implies t.notebooks[i].id != t.notebooks[j].id by {
        if j < s.notebooks.len() {
            assert(s.notebooks[i].id != s.notebooks[j].id);
        } else {
            assert(s.notebooks[i].id != row.id);
        }
    }
    assert forall|i: int|
        0 <= i < t.notebooks.len() && (#[trigger] t.notebooks[i]).parent_id is Some implies t.has_notebook(
        t.notebooks[i].parent_id->0,
    ) by {
        if i < s.notebooks.len() {
            assert(s.notebooks[i] == t.notebooks[i]);
        }
    }
    assert forall|i: int| 0 <= i < t.notes.len() implies t.has_notebook(
        (#[trigger] t.notes[i]).notebook_id,
    ) by {
        assert(s.has_notebook(s.notes[i].notebook_id));
    }
    assert forall|i: int| 0 <= i < t.notebooks.len() implies !is_blank(
        (#[trigger] t.notebooks[i]).title,
    ) by {
        if i < s.notebooks.len() {
            assert(s.notebooks[i] == t.notebooks[i]);
        }
    }
    assert forall|i: int| 0 <= i < t.links.len() implies t.has_note(
        (#[trigger] t.links[i]).note_id,
    ) && t.has_tag(t.links[i].tag_id) by {
        assert(s.has_note(s.links[i].note_id) && s.has_tag(s.links[i].tag_id));
        let n = choose|n: int|
            0 <= n < s.notes.len() && (#[trigger] s.notes[n]).id == s.links[i].note_id;
        assert(t.notes[n].id == t.links[i].note_id);
        let g = choose|g: int|
            0 <= g < s.tags.len() && (#[trigger] s.tags[g]).id == s.links[i].tag_id;
        assert(t.tags[g].id == t.links[i].tag_id);
    }
}

/// Creates a notebook under the identifier `id`. The title may not be blank,
/// the identifier must be new and the parent, if one is given, stored. The
/// new row goes behind its siblings.
pub fn insert_notebook(
    store: &mut Store,
    id: String,
    parent_id: Option<String>,
    title: String,
    icon: Option<String>,
    now: &str,
) -> (r: Result<Notebook, StoreError>)
    requires
        old(store).wf(),
    ensures
        final(store).wf(),
        creates_notebook(
            old(store)@,
            id@,
            opt_text(parent_id),
            title@,
            opt_text(icon),
            now@,
            r,
            final(store)@,
        ),
{
    if text_is_blank(title.as_str()) {
        return Err(StoreError::EmptyNotebookTitle);
    }
    if store.notebook_position(&id).is_some() {
        return Err(StoreError::DuplicateId);
    }
    match &parent_id {
        Some(p) => {
            if store.notebook_position(p).is_none() {
                return Err(StoreError::UnknownParent);
            }
        },
        None => {},
    }
    let sort_order: i32 = match max_sibling(store.notebooks(), &parent_id) {
        Some(m) => {
            if m == i32::MAX {
                return Err(StoreError::SortOrderOverflow);
            }
            m + 1
        },
        None => 1,
    };
    let row = Notebook { id, parent_id, title, icon, sort_order, created_at: now.to_string() };
    let out = row.duplicate();
    proof {
        lemma_push_notebook_wf(store@, row@);
    }
    store.push_notebook(row);
    Ok(out)
}

/// Creates a notebook under the identifier of the payload, or under a fresh
/// one where the payload gives none.
pub fn create_notebook(store: &mut Store, payload: NotebookPayload, now: &str) -> (r: Result<
    Notebook,
    StoreError,
>)
    requires
        old(store).wf(),
    ensures
        final(store).wf(),
        is_blank(payload.title@) ==> r == Err::<Notebook, StoreError>(
            StoreError::EmptyNotebookTitle,
        ) && final(store)@ == old(store)@,
        exists|id: Seq<char>|
            chosen_id(payload.id, id) && #[trigger] creates_notebook(
                old(store)@,
                id,
                opt_text(payload.parent_id),
                payload.title@,
                opt_text(payload.icon),
                now@,
                r,
                final(store)@,
            ),
{
    let id = match &payload.id {
        Some(given) => given.clone(),
        None => new_id(),
    };
    let ghost chosen = id@;
    let r = insert_notebook(store, id, payload.parent_id, payload.title, payload.icon, now);
    assert(chosen_id(payload.id, chosen));
    r
}

proof fn lemma_rename_wf(s: StoreView, id: Seq<char>, title: Seq<char>)
    requires
        s.wf(),
        !is_blank(title),
    ensures
        s.with_notebook_renamed(id, title).wf(),
{
    let t = s.with_notebook_renamed(id, title);
    lemma_notebook_ids_kept(s, t);
    lemma_note_ids_kept(s, t);
    lemma_tags_kept(s, t);
    assert forall|i: int, j: int|
        #![trigger t.notebooks[i], t.notebooks[j]]
        0 <= i < j < t.notebooks.len() implies t.notebooks[i].id != t.notebooks[j].id by {
        assert(s.notebooks[i].id != s.notebooks[j].id);
    }
    assert forall|i: int|
        0 <= i < t.notebooks.len() && (#[trigger] t.notebooks[i]).parent_id is Some implies t.has_notebook(
        t.notebooks[i].parent_id->0,
    ) by {
        assert(s.notebooks[i].parent_id == t.notebooks[i].parent_id);
    }
    assert forall|i: int| 0 <= i < t.notes.len() implies t.has_notebook(
        (#[trigger] t.notes[i]).notebook_id,
    ) by {
        assert(s.has_notebook(s.notes[i].notebook_id));
    }
    assert forall|i: int| 0 <= i < t.links.len() implies t.has_note(
        (#[trigger] t.links[i]).note_id,
    ) && t.has_tag(t.links[i].tag_id) by {
        assert(s.has_note(s.links[i].note_id) && s.has_tag(s.links[i].tag_id));
    }
    assert forall|i: int| 0 <= i < t.notebooks.len() implies !is_blank(
        (#[trigger] t.notebooks[i]).title,
    ) by {
        assert(!is_blank(s.notebooks[i].title));
    }
}

/// Gives the notebook `id` a new title. A blank title is refused; a notebook
/// that is not stored is left alone, and that is no error.
pub fn rename_notebook(store: &mut Store, id: String, title: String) -> (r: Result<(), StoreError>)
    requires
        old(store).wf(),
    ensures
        final(store).wf(),
        is_blank(title@) ==> r == Err::<(), StoreError>(StoreError::EmptyNotebookTitle)
            && final(store)@ == old(store)@,
        !is_blank(title@) ==> r is Ok && final(store)@ == old(store)@.with_notebook_renamed(
            id@,
            title@,
        ),
{
    if text_is_blank(title.as_str()) {
        return Err(StoreError::EmptyNotebookTitle);
    }
    let rows = store.notebooks();
    let ghost rv = views(rows@);
    let mut out: Vec<Notebook> = Vec::new();
    let mut i: usize = 0;
    while i < rows.len()
        invariant
            i <= rows.len(),
            rv == views(rows@),
            out@.len() == i,
            forall|k: int| 0 <= k < i ==> (#[trigger] out@[k])@ == renamed(rv[k], id@, title@),
        decreases rows.len() - i,
    {
        let mut row = rows[i].duplicate();
        if row.id == id {
            row.title = title.clone();
        }
        out.push(row);
        i += 1;
    }
    proof {
        assert(views(out@) =~= store@.with_notebook_renamed(id@, title@).notebooks);
        lemma_rename_wf(store@, id@, title@);
    }
    store.set_notebooks(out);
    Ok(())
}

proof fn lemma_move_wf(s: StoreView, id: Seq<char>, parent: Option<Seq<char>>)
    requires
        s.wf(),
        move_notebook_error(s, id, parent) is None,
    ensures
        s.with_notebook_moved(id, parent).wf(),
{
    let t = s.with_notebook_moved(id, parent);
    lemma_notebook_ids_kept(s, t);
    lemma_note_ids_kept(s, t);
    lemma_tags_kept(s, t);
    assert forall|i: int, j: int|
        #![trigger t.notebooks[i], t.notebooks[j]]
        0 <= i < j < t.notebooks.len() implies t.notebooks[i].id != t.notebooks[j].id by {
        assert(s.notebooks[i].id != s.notebooks[j].id);
    }
    assert forall|i: int|
        0 <= i < t.notebooks.len() && (#[trigger] t.notebooks[i]).parent_id is Some implies t.has_notebook(
        t.notebooks[i].parent_id->0,
    ) by {
        if s.notebooks[i].id == id {
            assert(s.has_notebook(id));
        } else {
            assert(s.notebooks[i].parent_id == t.notebooks[i].parent_id);
        }
    }
    assert forall|i: int| 0 <= i < t.notes.len() implies t.has_notebook(
        (#[trigger] t.notes[i]).notebook_id,
    ) by {
        assert(s.has_notebook(s.notes[i].notebook_id));
    }
    assert forall|i: int| 0 <= i < t.links.len() implies t.has_note(
        (#[trigger] t.links[i]).note_id,
    ) && t.has_tag(t.links[i].tag_id) by {
        assert(s.has_note(s.links[i].note_id) && s.has_tag(s.links[i].tag_id));
    }
    assert forall|i: int| 0 <= i < t.notebooks.len() implies !is_blank(
        (#[trigger] t.notebooks[i]).title,
    ) by {
        assert(!is_blank(s.notebooks[i].title));
    }
}

/// Puts the notebook `id` under another parent, or at the top where none is
/// given. Its position among the siblings stays as it was, and nothing keeps
/// a notebook from being put under one of its own descendants. A stored
/// notebook needs a stored parent; one that is not stored is left alone.
pub fn move_notebook(store: &mut Store, id: String, new_parent_id: Option<String>) -> (r: Result<
    (),
    StoreError,
>)
    requires
        old(store).wf(),
    ensures
        final(store).wf(),
        match move_notebook_error(old(store)@, id@, opt_text(new_parent_id)) {
            Some(e) => r == Err::<(), StoreError>(e) && final(store)@ == old(store)@,
            None => r is Ok && final(store)@ == old(store)@.with_notebook_moved(
                id@,
                opt_text(new_parent_id),
            ),
        },
{
    if store.notebook_position(&id).is_some() {
        match &new_parent_id {
            Some(p) => {
                if store.notebook_position(p).is_none() {
                    return Err(StoreError::UnknownParent);
                }
            },
            None => {},
        }
    }
    let rows = store.notebooks();
    let ghost rv = views(rows@);
    let ghost pv = opt_text(new_parent_id);
    let mut out: Vec<Notebook> = Vec::new();
    let mut i: usize = 0;
    while i < rows.len()
        invariant
            i <= rows.len(),
            rv == views(rows@),
            pv == opt_text(new_parent_id),
            out@.len() == i,
            forall|k: int| 0 <= k < i ==> (#[trigger] out@[k])@ == reparented(rv[k], id@, pv),
        decreases rows.len() - i,
    {
        let mut row = rows[i].duplicate();
        if row.id == id {
            row.parent_id = copy_opt_text(&new_parent_id);
        }
        out.push(row);
        i += 1;
    }
    proof {
        assert(views(out@) =~= store@.with_notebook_moved(id@, pv).notebooks);
        lemma_move_wf(store@, id@, pv);
    }
    store.set_notebooks(out);
    Ok(())
}

/// Removing a subtree keeps the constraints: no row that stays refers to a
/// row that goes.
pub proof fn lemma_without_notebook_wf(s: StoreView, root: Seq<char>)
    requires
        s.wf(),
    ensures
        s.without_notebook(root).wf(),
{
    let t = s.without_notebook(root);
    let nb = s.notebook_outside(root);
    let nt = s.note_outside(root);
    let lk = s.link_outside(root);
    lemma_filter_members(s.notebooks, nb);
    lemma_filter_members(s.notes, nt);
    lemma_filter_members(s.links, lk);
    let distinct_notebooks = |a: NotebookView, b: NotebookView| a.id != b.id;
    let distinct_notes = |a: NoteView, b: NoteView| a.id != b.id;
    let distinct_links = |a: NoteTagView, b: NoteTagView| a != b;
    assert forall|i: int, j: int| 0 <= i < j < s.notebooks.len() implies #[trigger] distinct_notebooks(
        s.notebooks[i],
        s.notebooks[j],
    ) by {}
    assert forall|i: int, j: int| 0 <= i < j < s.notes.len() implies #[trigger] distinct_notes(
        s.notes[i],
        s.notes[j],
    ) by {}
    assert forall|i: int, j: int| 0 <= i < j < s.links.len() implies #[trigger] distinct_links(
        s.links[i],
        s.links[j],
    ) by {}
    lemma_filter_keeps_pairs(s.notebooks, nb, distinct_notebooks);
    lemma_filter_keeps_pairs(s.notes, nt, distinct_notes);
    lemma_filter_keeps_pairs(s.links, lk, distinct_links);
    assert forall|i: int|
        0 <= i < t.notebooks.len() && (#[trigger] t.notebooks[i]).parent_id is Some implies t.has_notebook(
        t.notebooks[i].parent_id->0,
    ) by {
        let n = t.notebooks[i];
        let p = n.parent_id->0;
        assert(s.notebooks.contains(n));
        let a = choose|a: int| 0 <= a < s.notebooks.len() && s.notebooks[a] == n;
        assert(s.notebooks[a].parent_id is Some);
        assert(s.has_notebook(p));
        let b = choose|b: int| 0 <= b < s.notebooks.len() && (#[trigger] s.notebooks[b]).id == p;
        if s.in_subtree(root, p) {
            lemma_child_in_subtree(s, root, a);
        }
        assert(nb(s.notebooks[b]));
        assert(t.notebooks.contains(s.notebooks[b]));
        let c = choose|c: int| 0 <= c < t.notebooks.len() && t.notebooks[c] == s.notebooks[b];
        assert(t.notebooks[c].id == p);
    }
    assert forall|i: int| 0 <= i < t.notes.len() implies t.has_notebook(
        (#[trigger] t.notes[i]).notebook_id,
    ) by {
        let n = t.notes[i];
        assert(s.notes.contains(n));
        let a = choose|a: int| 0 <= a < s.notes.len() && s.notes[a] == n;
        assert(s.has_notebook(s.notes[a].notebook_id));
        let b = choose|b: int|
            0 <= b < s.notebooks.len() && (#[trigger] s.notebooks[b]).id == n.notebook_id;
        assert(nb(s.notebooks[b]));
        assert(t.notebooks.contains(s.notebooks[b]));
        let c = choose|c: int| 0 <= c < t.notebooks.len() && t.notebooks[c] == s.notebooks[b];
        assert(t.notebooks[c].id == n.notebook_id);
    }
    assert forall|i: int| 0 <= i < t.links.len() implies t.has_note(
        (#[trigger] t.links[i]).note_id,
    ) && t.has_tag(t.links[i].tag_id) by {
        let l = t.links[i];
        assert(s.links.contains(l));
        let a = choose|a: int| 0 <= a < s.links.len() && s.links[a] == l;
        assert(s.has_note(s.links[a].note_id) && s.has_tag(s.links[a].tag_id));
        let b = choose|b: int| 0 <= b < s.notes.len() && (#[trigger] s.notes[b]).id == l.note_id;
        lemma_note_found(s, b);
        assert(nt(s.notes[b]));
        assert(t.notes.contains(s.notes[b]));
        let c = choose|c: int| 0 <= c < t.notes.len() && t.notes[c] == s.notes[b];
        assert(t.notes[c].id == l.note_id);
        let g = choose|g: int| 0 <= g < s.tags.len() && (#[trigger] s.tags[g]).id == l.tag_id;
        assert(t.tags[g].id == l.tag_id);
    }
    assert forall|i: int| 0 <= i < t.notebooks.len() implies !is_blank(
        (#[trigger] t.notebooks[i]).title,
    ) by {
        assert(s.notebooks.contains(t.notebooks[i]));
        let a = choose|a: int| 0 <= a < s.notebooks.len() && s.notebooks[a] == t.notebooks[i];
        assert(!is_blank(s.notebooks[a].title));
    }
    assert forall|i: int| 0 <= i < t.notes.len() implies !is_blank(
        (#[trigger] t.notes[i]).title,
    ) by {
        assert(s.notes.contains(t.notes[i]));
        let a = choose|a: int| 0 <= a < s.notes.len() && s.notes[a] == t.notes[i];
        assert(!is_blank(s.notes[a].title));
    }
    assert(t.keys_unique()) by {
        assert forall|i: int, j: int|
            #![trigger t.notebooks[i], t.notebooks[j]]
            0 <= i < j < t.notebooks.len() implies t.notebooks[i].id != t.notebooks[j].id by {
            assert(distinct_notebooks(t.notebooks[i], t.notebooks[j]));
        }
        assert forall|i: int, j: int|
            #![trigger t.notes[i], t.notes[j]]
            0 <= i < j < t.notes.len() implies t.notes[i].id != t.notes[j].id by {
            assert(distinct_notes(t.notes[i], t.notes[j]));
        }
        assert forall|i: int, j: int|
            #![trigger t.links[i], t.links[j]]
            0 <= i < j < t.links.len() implies t.links[i] != t.links[j] by {
            assert(distinct_links(t.links[i], t.links[j]));
        }
    }
}

/// Deletes the notebook `id` with all that hangs on it: its descendants, the
/// notes in any of them, and the tag associations of those notes. Tags stay.
/// A notebook that is not stored leaves the store as it is.
pub fn delete_notebook(store: &mut Store, id: String)
    requires
        old(store).wf(),
    ensures
        final(store).wf(),
        final(store)@ == old(store)@.without_notebook(id@),
{
    let ghost s = store@;
    let marks = subtree_marks(store, &id);
    let rows = store.notebooks();
    let ghost rv = views(rows@);
    let mut kept: Vec<Notebook> = Vec::new();
    let mut i: usize = 0;
    assert(rv.take(0) =~= Seq::<NotebookView>::empty());
    while i < rows.len()
        invariant
            i <= rows.len(),
            rv == views(rows@),
            rv == s.notebooks,
            marks@.len() == rows@.len(),
            forall|k: int|
                0 <= k < marks@.len() ==> #[trigger] marks@[k] == s.in_subtree(id@, rv[k].id),
            views(kept@) == rv.take(i as int).filter(s.notebook_outside(id@)),
        decreases rows.len() - i,
    {
        proof {
            lemma_filter_take_step(rv, s.notebook_outside(id@), i as int);
        }
        if !marks[i] {
            let row = rows[i].duplicate();
            assert(views(kept@.push(row)) =~= views(kept@).push(row@));
            kept.push(row);
        }
        i += 1;
    }
    assert(rv.take(rows@.len() as int) =~= rv);

    let notes = store.notes();
    let ghost nv = views(notes@);
    let mut kept_notes: Vec<Note> = Vec::new();
    let mut gone: Vec<bool> = Vec::new();
    let mut i: usize = 0;
    assert(nv.take(0) =~= Seq::<NoteView>::empty());
    while i < notes.len()
        invariant
            i <= notes.len(),
            store.wf(),
            s == store@,
            nv == views(notes@),
            nv == s.notes,
            marks@.len() == s.notebooks.len(),
            forall|k: int|
                0 <= k < marks@.len() ==> #[trigger] marks@[k] == s.in_subtree(
                    id@,
                    s.notebooks[k].id,
                ),
            gone@.len() == i,
            forall|k: int| 0 <= k < i ==> #[trigger] gone@[k] == s.in_subtree(id@, nv[k].notebook_id),
            views(kept_notes@) == nv.take(i as int).filter(s.note_outside(id@)),
        decreases notes.len() - i,
    {
        proof {
            lemma_filter_take_step(nv, s.note_outside(id@), i as int);
            assert(s.has_notebook(nv[i as int].notebook_id));
        }
        let inside = match store.notebook_position(&notes[i].notebook_id) {
            Some(j) => marks[j],
            None => false,
        };
        gone.push(inside);
        if !inside {
            let row = notes[i].duplicate();
            assert(views(kept_notes@.push(row)) =~= views(kept_notes@).push(row@));
            kept_notes.push(row);
        }
        i += 1;
    }
    assert(nv.take(notes@.len() as int) =~= nv);

    let links = store.links();
    let ghost lv = views(links@);
    let mut kept_links: Vec<NoteTag> = Vec::new();
    let mut i: usize = 0;
    assert(lv.take(0) =~= Seq::<NoteTagView>::empty());
    while i < links.len()
        invariant
            i <= links.len(),
            store.wf(),
            s == store@,
            lv == views(links@),
            lv == s.links,
            gone@.len() == s.notes.len(),
            forall|k: int|
                0 <= k < gone@.len() ==> #[trigger] gone@[k] == s.in_subtree(
                    id@,
                    s.notes[k].notebook_id,
                ),
            views(kept_links@) == lv.take(i as int).filter(s.link_outside(id@)),
        decreases links.len() - i,
    {
        proof {
            lemma_filter_take_step(lv, s.link_outside(id@), i as int);
            assert(s.has_note(lv[i as int].note_id));
        }
        let inside = match store.note_position(&links[i].note_id) {
            Some(j) => {
                proof {
                    lemma_note_found(s, j as int);
                }
                gone[j]
            },
            None => false,
        };
        if !inside {
            let row = links[i].duplicate();
            assert(views(kept_links@.push(row)) =~= views(kept_links@).push(row@));
            kept_links.push(row);
        }
        i += 1;
    }
    assert(lv.take(links@.len() as int) =~= lv);
    proof {
        lemma_without_notebook_wf(s, id@);
    }
    store.set_notebooks(kept);
    store.set_notes(kept_notes);
    store.set_links(kept_links);
}

/// Deleting cascades. After the notebook `root` is deleted, no notebook of its
/// subtree is stored, nor a note of such a notebook, nor a tag association of
/// such a note; every other row is still stored, and so is every tag.
pub proof fn lemma_delete_cascades(s: StoreView, root: Seq<char>)
    requires
        s.wf(),
    ensures
        !s.without_notebook(root).has_notebook(root),
        forall|i: int|
            0 <= i < s.notebooks.len() ==> s.without_notebook(root).has_notebook(
                (#[trigger] s.notebooks[i]).id,
            ) == !s.in_subtree(root, s.notebooks[i].id),
        forall|i: int|
            0 <= i < s.notes.len() ==> s.without_notebook(root).has_note(
                (#[trigger] s.notes[i]).id,
            ) == !s.in_subtree(root, s.notes[i].notebook_id),
        forall|i: int|
            0 <= i < s.links.len() ==> s.without_notebook(root).has_link(
                (#[trigger] s.links[i]).note_id,
                s.links[i].tag_id,
            ) == !s.note_in_subtree(root, s.links[i].note_id),
        s.without_notebook(root).tags == s.tags,
{
    let t = s.without_notebook(root);
    let nb = s.notebook_outside(root);
    let nt = s.note_outside(root);
    let lk = s.link_outside(root);
    lemma_filter_members(s.notebooks, nb);
    lemma_filter_members(s.notes, nt);
    lemma_filter_members(s.links, lk);
    lemma_root_in_subtree(s, root);
    assert(!t.has_notebook(root)) by {
        if t.has_notebook(root) {
            let c = choose|c: int| 0 <= c < t.notebooks.len() && (#[trigger] t.notebooks[c]).id == root;
            assert(nb(t.notebooks[c]));
        }
    }
    assert forall|i: int| 0 <= i < s.notebooks.len() implies t.has_notebook(
        (#[trigger] s.notebooks[i]).id,
    ) == !s.in_subtree(root, s.notebooks[i].id) by {
        let n = s.notebooks[i];
        if t.has_notebook(n.id) {
            let c = choose|c: int| 0 <= c < t.notebooks.len() && (#[trigger] t.notebooks[c]).id == n.id;
            assert(nb(t.notebooks[c]));
        }
        if !s.in_subtree(root, n.id) {
            assert(nb(n));
            assert(t.notebooks.contains(n));
            let c = choose|c: int| 0 <= c < t.notebooks.len() && t.notebooks[c] == n;
            assert(t.notebooks[c].id == n.id);
        }
    }
    assert forall|i: int| 0 <= i < s.notes.len() implies t.has_note((#[trigger] s.notes[i]).id)
        == !s.in_subtree(root, s.notes[i].notebook_id) by {
        let n = s.notes[i];
        if t.has_note(n.id) {
            let c = choose|c: int| 0 <= c < t.notes.len() && (#[trigger] t.notes[c]).id == n.id;
            assert(nt(t.notes[c]));
            assert(s.notes.contains(t.notes[c]));
            let a = choose|a: int| 0 <= a < s.notes.len() && s.notes[a] == t.notes[c];
            if a < i {
                assert(s.notes[a].id != s.notes[i].id);
            } else if i < a {
                assert(s.notes[i].id != s.notes[a].id);
            }
        }
        if !s.in_subtree(root, n.notebook_id) {
            assert(nt(n));
            assert(t.notes.contains(n));
            let c = choose|c: int| 0 <= c < t.notes.len() && t.notes[c] == n;
            assert(t.notes[c].id == n.id);
        }
    }
    assert forall|i: int| 0 <= i < s.links.len() implies t.has_link(
        (#[trigger] s.links[i]).note_id,
        s.links[i].tag_id,
    ) == !s.note_in_subtree(root, s.links[i].note_id) by {
        let l = s.links[i];
        if t.has_link(l.note_id, l.tag_id) {
            let c = choose|c: int|
                0 <= c < t.links.len() && #[trigger] t.links[c] == (NoteTagView {
                    note_id: l.note_id,
                    tag_id: l.tag_id,
                });
            assert(lk(t.links[c]));
        }
        if !s.note_in_subtree(root, l.note_id) {
            assert(lk(l));
            assert(t.links.contains(l));
            let c = choose|c: int| 0 <= c < t.links.len() && t.links[c] == l;
            assert(t.links[c] == (NoteTagView { note_id: l.note_id, tag_id: l.tag_id }));
        }
    }
}

/// A new notebook is found in the next listing, once, and its position is one
/// behind the last of its siblings: 1 for a first child, and else one more
/// than the largest position among the notebooks that had the same parent.
pub proof fn lemma_created_notebook_is_listed(
    s: StoreView,
    id: Seq<char>,
    parent: Option<Seq<char>>,
    title: Seq<char>,
    icon: Option<Seq<char>>,
    now: Seq<char>,
)
    requires
        s.wf(),
        create_notebook_error(s, id, parent, title) is None,
    ensures
        ({
            let row = created_notebook(s, id, parent, title, icon, now);
            let t = StoreView { notebooks: s.notebooks.push(row), ..s };
            &&& t.listed_notebooks().contains(row)
            &&& forall|i: int|
                0 <= i < t.listed_notebooks().len() && (#[trigger] t.listed_notebooks()[i]).id
                    == id ==> t.listed_notebooks()[i] == row
            &&& (forall|i: int|
                0 <= i < s.notebooks.len() ==> (#[trigger] s.notebooks[i]).parent_id != parent)
                ==> row.sort_order == 1
            &&& forall|i: int|
                0 <= i < s.notebooks.len() && (#[trigger] s.notebooks[i]).parent_id == parent
                    ==> s.notebooks[i].sort_order < row.sort_order
            &&& (exists|i: int|
                0 <= i < s.notebooks.len() && (#[trigger] s.notebooks[i]).parent_id == parent)
                ==> exists|i: int|
                0 <= i < s.notebooks.len() && (#[trigger] s.notebooks[i]).parent_id == parent
                    && s.notebooks[i].sort_order + 1 == row.sort_order
        }),
{
    let row = created_notebook(s, id, parent, title, icon, now);
    let t = StoreView { notebooks: s.notebooks.push(row), ..s };
    lemma_listed_notebooks(t);
    lemma_max_sibling_order(s.notebooks, parent);
    assert(t.notebooks[s.notebooks.len() as int] == row);
    assert forall|i: int|
        0 <= i < t.listed_notebooks().len() && (#[trigger] t.listed_notebooks()[i]).id
            == id implies t.listed_notebooks()[i] == row by {
        let found = t.listed_notebooks()[i];
        assert(t.notebooks.contains(found));
        let k = choose|k: int| 0 <= k < t.notebooks.len() && t.notebooks[k] == found;
        if k < s.notebooks.len() {
            assert(s.notebooks[k].id == id);
        }
    }
    match max_sibling_order(s.notebooks, parent) {
        Some(m) => {
            let w = choose|i: int|
                0 <= i < s.notebooks.len() && (#[trigger] s.notebooks[i]).parent_id == parent
                    && s.notebooks[i].sort_order == m;
            assert(s.notebooks[w].sort_order + 1 == row.sort_order);
        },
        None => {},
    }
}

} // verus!
