//! Search over notes, notebooks and tags, and the notes that refer to a note.

use crate::models::{
    views, Note, NoteView, Notebook, NotebookView, SearchResult, SearchResultView,
};
use crate::seqs::{lemma_filter_all, lemma_filter_members, lemma_filter_take_step};
use crate::store::{Store, StoreView};
use crate::text::{
    chars_contain, chars_of, contains_text, lemma_empty_occurs_everywhere, lowercase_of,
    matches_folded, text_matches_folded, to_lowercase,
};
use vstd::prelude::*;

verus! {

/// The title or the text of the note holds the query.
pub open spec fn note_matches(folded: Seq<char>) -> spec_fn(NoteView) -> bool {
    |n: NoteView| matches_folded(n.title, folded) || matches_folded(n.markdown, folded)
}

/// The title of the notebook holds the query.
pub open spec fn notebook_matches(folded: Seq<char>) -> spec_fn(NotebookView) -> bool {
    |b: NotebookView| matches_folded(b.title, folded)
}

/// One of the notes has this identifier.
pub open spec fn has_note_id(notes: Seq<NoteView>, id: Seq<char>) -> bool {
    exists|i: int| 0 <= i < notes.len() && (#[trigger] notes[i]).id == id
}

pub open spec fn not_among(first: Seq<NoteView>) -> spec_fn(NoteView) -> bool {
    |n: NoteView| !has_note_id(first, n.id)
}

pub open spec fn as_note_hits(notes: Seq<NoteView>) -> Seq<SearchResultView> {
    notes.map_values(|n: NoteView| SearchResultView::Note(n))
}

pub open spec fn as_notebook_hits(notebooks: Seq<NotebookView>) -> Seq<SearchResultView> {
    notebooks.map_values(|b: NotebookView| SearchResultView::Notebook(b))
}

/// The three groups of a search as one sequence: the notes found by their
/// own text, then the notebooks, then the notes found by a tag. A note of the
/// last group is left out where the first group holds a note with its
/// identifier.
pub open spec fn merged(
    notes: Seq<NoteView>,
    notebooks: Seq<NotebookView>,
    tagged: Seq<NoteView>,
) -> Seq<SearchResultView> {
    as_note_hits(notes) + as_notebook_hits(notebooks) + as_note_hits(
        tagged.filter(not_among(notes)),
    )
}

/// The note is another one than `note_id` and its text holds that identifier.
pub open spec fn refers_to(note_id: Seq<char>) -> spec_fn(NoteView) -> bool {
    |n: NoteView| n.id != note_id && contains_text(n.markdown, note_id)
}

impl StoreView {
    /// The note carries a tag whose name holds the query.
    pub open spec fn has_tag_like(self, note_id: Seq<char>, folded: Seq<char>) -> bool {
        exists|i: int|
            0 <= i < self.tags.len() && matches_folded((#[trigger] self.tags[i]).name, folded)
                && self.has_link(note_id, self.tags[i].id)
    }

    pub open spec fn note_tagged_like(self, folded: Seq<char>) -> spec_fn(NoteView) -> bool {
        |n: NoteView| self.has_tag_like(n.id, folded)
    }

    /// What a search for a query finds, the query given in lower case.
    pub open spec fn search(self, folded: Seq<char>) -> Seq<SearchResultView> {
        merged(
            self.notes.filter(note_matches(folded)),
            self.notebooks.filter(notebook_matches(folded)),
            self.notes.filter(self.note_tagged_like(folded)),
        )
    }

    /// The notes that refer to the note `note_id`.
    pub open spec fn backlinks(self, note_id: Seq<char>) -> Seq<NoteView> {
        self.notes.filter(refers_to(note_id))
    }
}

fn holds_note_id(notes: &Vec<Note>, id: &String) -> (r: bool)
    ensures
        r == has_note_id(views(notes@), id@),
{
    let mut i: usize = 0;
    while i < notes.len()
        invariant
            i <= notes.len(),
            forall|k: int| 0 <= k < i ==> (#[trigger] views(notes@)[k]).id != id@,
        decreases notes.len() - i,
    {
        if notes[i].id == *id {
            assert(views(notes@)[i as int].id == id@);
            return true;
        }
        i += 1;
    }
    false
}

/// Puts the three groups of a search into one sequence: see `merged`.
pub fn merge_search_results(notes: &Vec<Note>, notebooks: &Vec<Notebook>, tagged: &Vec<Note>) -> (out:
    Vec<SearchResult>)
    ensures
        views(out@) == merged(views(notes@), views(notebooks@), views(tagged@)),
{
    let ghost nv = views(notes@);
    let ghost bv = views(notebooks@);
    let ghost tv = views(tagged@);
    let ghost pred = not_among(nv);
    let mut out: Vec<SearchResult> = Vec::new();
    let mut i: usize = 0;
    while i < notes.len()
        invariant
            i <= notes.len(),
            nv == views(notes@),
            out@.len() == i,
            forall|k: int| 0 <= k < i ==> (#[trigger] out@[k])@ == SearchResultView::Note(nv[k]),
        decreases notes.len() - i,
    {
        out.push(SearchResult::Note(notes[i].duplicate()));
        i += 1;
    }
    let mut i: usize = 0;
    while i < notebooks.len()
        invariant
            i <= notebooks.len(),
            nv == views(notes@),
            bv == views(notebooks@),
            out@.len() == nv.len() + i,
            forall|k: int|
                0 <= k < nv.len() ==> (#[trigger] out@[k])@ == SearchResultView::Note(nv[k]),
            forall|k: int|
                0 <= k < i ==> (#[trigger] out@[nv.len() + k])@ == SearchResultView::Notebook(
                    bv[k],
                ),
        decreases notebooks.len() - i,
    {
        out.push(SearchResult::Notebook(notebooks[i].duplicate()));
        i += 1;
    }
    let mut extra: Vec<Note> = Vec::new();
    let mut i: usize = 0;
    assert(tv.take(0).filter(pred) =~= Seq::<NoteView>::empty()) by {
        tv.take(0).lemma_filter_len(pred);
    }
    while i < tagged.len()
        invariant
            i <= tagged.len(),
            nv == views(notes@),
            tv == views(tagged@),
            pred == not_among(nv),
            views(extra@) == tv.take(i as int).filter(pred),
        decreases tagged.len() - i,
    {
        proof {
            lemma_filter_take_step(tv, pred, i as int);
        }
        if !holds_note_id(notes, &tagged[i].id) {
            let row = tagged[i].duplicate();
            assert(views(extra@.push(row)) =~= views(extra@).push(row@));
            extra.push(row);
        }
        i += 1;
    }
    assert(tv.take(tagged@.len() as int) =~= tv);
    let ghost ev = views(extra@);
    let mut i: usize = 0;
    while i < extra.len()
        invariant
            i <= extra.len(),
            ev == views(extra@),
            out@.len() == nv.len() + bv.len() + i,
            forall|k: int|
                0 <= k < nv.len() ==> (#[trigger] out@[k])@ == SearchResultView::Note(nv[k]),
            forall|k: int|
                0 <= k < bv.len() ==> (#[trigger] out@[nv.len() + k])@
                    == SearchResultView::Notebook(bv[k]),
            forall|k: int|
                0 <= k < i ==> (#[trigger] out@[nv.len() + bv.len() + k])@
                    == SearchResultView::Note(ev[k]),
        decreases extra.len() - i,
    {
        out.push(SearchResult::Note(extra[i].duplicate()));
        i += 1;
    }
    proof {
        let want = merged(nv, bv, tv);
        assert(want.len() == out@.len());
        assert forall|k: int| 0 <= k < out@.len() implies views(out@)[k] == want[k] by {
            if k < nv.len() {
                assert(out@[k]@ == SearchResultView::Note(nv[k]));
            } else if k < nv.len() + bv.len() {
                assert(out@[nv.len() + (k - nv.len())]@ == SearchResultView::Notebook(
                    bv[k - nv.len()],
                ));
            } else {
                let j = k - nv.len() - bv.len();
                assert(out@[nv.len() + bv.len() + j]@ == SearchResultView::Note(ev[j]));
            }
        }
        assert(views(out@) =~= want);
    }
    out
}

/// The notes whose title or text holds the query, in the order of the table.
pub fn notes_matching(store: &Store, folded: &Vec<char>) -> (out: Vec<Note>)
    ensures
        views(out@) == store@.notes.filter(note_matches(folded@)),
{
    let rows = store.notes();
    let ghost rv = views(rows@);
    let ghost pred = note_matches(folded@);
    let mut out: Vec<Note> = Vec::new();
    let mut i: usize = 0;
    assert(rv.take(0).filter(pred) =~= Seq::<NoteView>::empty()) by {
        rv.take(0).lemma_filter_len(pred);
    }
    while i < rows.len()
        invariant
            i <= rows.len(),
            rv == views(rows@),
            pred == note_matches(folded@),
            views(out@) == rv.take(i as int).filter(pred),
        decreases rows.len() - i,
    {
        proof {
            lemma_filter_take_step(rv, pred, i as int);
        }
        if text_matches_folded(rows[i].title.as_str(), folded) || text_matches_folded(
            rows[i].markdown.as_str(),
            folded,
        ) {
            let row = rows[i].duplicate();
            assert(views(out@.push(row)) =~= views(out@).push(row@));
            out.push(row);
        }
        i += 1;
    }
    assert(rv.take(rows@.len() as int) =~= rv);
    out
}

/// The notebooks whose title holds the query, in the order of the table.
pub fn notebooks_matching(store: &Store, folded: &Vec<char>) -> (out: Vec<Notebook>)
    ensures
        views(out@) == store@.notebooks.filter(notebook_matches(folded@)),
{
    let rows = store.notebooks();
    let ghost rv = views(rows@);
    let ghost pred = notebook_matches(folded@);
    let mut out: Vec<Notebook> = Vec::new();
    let mut i: usize = 0;
    assert(rv.take(0).filter(pred) =~= Seq::<NotebookView>::empty()) by {
        rv.take(0).lemma_filter_len(pred);
    }
    while i < rows.len()
        invariant
            i <= rows.len(),
            rv == views(rows@),
            pred == notebook_matches(folded@),
            views(out@) == rv.take(i as int).filter(pred),
        decreases rows.len() - i,
    {
        proof {
            lemma_filter_take_step(rv, pred, i as int);
        }
        if text_matches_folded(rows[i].title.as_str(), folded) {
            let row = rows[i].duplicate();
            assert(views(out@.push(row)) =~= views(out@).push(row@));
            out.push(row);
        }
        i += 1;
    }
    assert(rv.take(rows@.len() as int) =~= rv);
    out
}

fn carries_tag_like(store: &Store, hits: &Vec<bool>, note_id: &String, Ghost(folded): Ghost<
    Seq<char>,
>) -> (r: bool)
    requires
        hits@.len() == store@.tags.len(),
        forall|k: int|
            0 <= k < hits@.len() ==> #[trigger] hits@[k] == matches_folded(
                store@.tags[k].name,
                folded,
            ),
    ensures
        r == store@.has_tag_like(note_id@, folded),
{
    let tags = store.tags();
    let mut i: usize = 0;
    while i < tags.len()
        invariant
            i <= tags.len(),
            views(tags@) == store@.tags,
            hits@.len() == store@.tags.len(),
            forall|k: int|
                0 <= k < hits@.len() ==> #[trigger] hits@[k] == matches_folded(
                    store@.tags[k].name,
                    folded,
                ),
            forall|k: int|
                0 <= k < i ==> !(matches_folded((#[trigger] store@.tags[k]).name, folded)
                    && store@.has_link(note_id@, store@.tags[k].id)),
        decreases tags.len() - i,
    {
        if hits[i] && store.is_linked(note_id, &tags[i].id) {
            assert(matches_folded(store@.tags[i as int].name, folded) && store@.has_link(
                note_id@,
                store@.tags[i as int].id,
            ));
            return true;
        }
        i += 1;
    }
    false
}

/// The notes that carry a tag whose name holds the query, each once, in the
/// order of the table.
pub fn notes_tagged_like(store: &Store, folded: &Vec<char>) -> (out: Vec<Note>)
    ensures
        views(out@) == store@.notes.filter(store@.note_tagged_like(folded@)),
{
    let tags = store.tags();
    let mut hits: Vec<bool> = Vec::new();
    let mut i: usize = 0;
    while i < tags.len()
        invariant
            i <= tags.len(),
            views(tags@) == store@.tags,
            hits@.len() == i,
            forall|k: int|
                0 <= k < i ==> #[trigger] hits@[k] == matches_folded(
                    store@.tags[k].name,
                    folded@,
                ),
        decreases tags.len() - i,
    {
        hits.push(text_matches_folded(tags[i].name.as_str(), folded));
        i += 1;
    }
    let rows = store.notes();
    let ghost rv = views(rows@);
    let ghost pred = store@.note_tagged_like(folded@);
    let mut out: Vec<Note> = Vec::new();
    let mut i: usize = 0;
    assert(rv.take(0).filter(pred) =~= Seq::<NoteView>::empty()) by {
        rv.take(0).lemma_filter_len(pred);
    }
    while i < rows.len()
        invariant
            i <= rows.len(),
            rv == views(rows@),
            pred == store@.note_tagged_like(folded@),
            hits@.len() == store@.tags.len(),
            forall|k: int|
                0 <= k < hits@.len() ==> #[trigger] hits@[k] == matches_folded(
                    store@.tags[k].name,
                    folded@,
                ),
            views(out@) == rv.take(i as int).filter(pred),
        decreases rows.len() - i,
    {
        proof {
            lemma_filter_take_step(rv, pred, i as int);
        }
        if carries_tag_like(store, &hits, &rows[i].id, Ghost(folded@)) {
            let row = rows[i].duplicate();
            assert(views(out@.push(row)) =~= views(out@).push(row@));
            out.push(row);
        }
        i += 1;
    }
    assert(rv.take(rows@.len() as int) =~= rv);
    out
}

/// Searches for a query that is given in lower case: the notes whose title or
/// text holds it, then the notebooks whose title holds it, then the notes
/// found by a tag whose name holds it and not found before.
pub fn search_folded(store: &Store, folded: &Vec<char>) -> (out: Vec<SearchResult>)
    ensures
        views(out@) == store@.search(folded@),
{
    let notes = notes_matching(store, folded);
    let notebooks = notebooks_matching(store, folded);
    let tagged = notes_tagged_like(store, folded);
    merge_search_results(&notes, &notebooks, &tagged)
}

/// The empty query finds everything: every note and every notebook is among
/// the hits, and the first hits are all notes in the order of their table,
/// followed by all notebooks in the order of theirs.
pub proof fn lemma_search_empty(s: StoreView, folded: Seq<char>)
    requires
        folded.len() == 0,
    ensures
        s.search(folded) == as_note_hits(s.notes) + as_notebook_hits(s.notebooks),
        forall|i: int|
            0 <= i < s.notes.len() ==> s.search(folded).contains(
                SearchResultView::Note(#[trigger] s.notes[i]),
            ),
        forall|i: int|
            0 <= i < s.notebooks.len() ==> s.search(folded).contains(
                SearchResultView::Notebook(#[trigger] s.notebooks[i]),
            ),
{
    assert(folded =~= Seq::<char>::empty());
    assert forall|i: int| 0 <= i < s.notes.len() implies note_matches(folded)(
        #[trigger] s.notes[i],
    ) by {
        lemma_empty_occurs_everywhere(lowercase_of(s.notes[i].title));
    }
    assert forall|i: int| 0 <= i < s.notebooks.len() implies notebook_matches(folded)(
        #[trigger] s.notebooks[i],
    ) by {
        lemma_empty_occurs_everywhere(lowercase_of(s.notebooks[i].title));
    }
    lemma_filter_all(s.notes, note_matches(folded));
    lemma_filter_all(s.notebooks, notebook_matches(folded));
    let tagged = s.notes.filter(s.note_tagged_like(folded));
    let rest = tagged.filter(not_among(s.notes));
    lemma_filter_members(s.notes, s.note_tagged_like(folded));
    lemma_filter_members(tagged, not_among(s.notes));
    if rest.len() > 0 {
        let n = rest[0];
        assert(not_among(s.notes)(n));
        assert(tagged.contains(n));
        let a = choose|a: int| 0 <= a < tagged.len() && tagged[a] == n;
        assert(s.notes.contains(tagged[a]));
        let b = choose|b: int| 0 <= b < s.notes.len() && s.notes[b] == n;
        assert(s.notes[b].id == n.id);
        assert(false);
    }
    let all = as_note_hits(s.notes) + as_notebook_hits(s.notebooks);
    assert(s.search(folded) =~= all);
    assert forall|i: int| 0 <= i < s.notes.len() implies s.search(folded).contains(
        SearchResultView::Note(#[trigger] s.notes[i]),
    ) by {
        assert(all[i] == SearchResultView::Note(s.notes[i]));
    }
    assert forall|i: int| 0 <= i < s.notebooks.len() implies s.search(folded).contains(
        SearchResultView::Notebook(#[trigger] s.notebooks[i]),
    ) by {
        assert(all[s.notes.len() + i] == SearchResultView::Notebook(s.notebooks[i]));
    }
}

/// Searches notes, notebooks and tags for the query, letter case set aside:
/// the query and the texts are compared in lower case.
pub fn search_notes_and_notebooks(store: &Store, query: String) -> (out: Vec<SearchResult>)
    ensures
        views(out@) == store@.search(lowercase_of(query@)),
        query@.len() == 0 ==> views(out@) == as_note_hits(store@.notes) + as_notebook_hits(
            store@.notebooks,
        ),
{
    let lowered = to_lowercase(query.as_str());
    let folded = chars_of(lowered.as_str());
    proof {
        if query@.len() == 0 {
            lemma_search_empty(store@, folded@);
        }
    }
    search_folded(store, &folded)
}

/// The backlinks of a note are the other notes whose text holds its
/// identifier, letter for letter.
pub proof fn lemma_backlinks(s: StoreView, note_id: Seq<char>)
    ensures
        forall|i: int|
            0 <= i < s.backlinks(note_id).len() ==> (#[trigger] s.backlinks(note_id)[i]).id
                != note_id && contains_text(s.backlinks(note_id)[i].markdown, note_id)
                && s.notes.contains(s.backlinks(note_id)[i]),
        forall|k: int|
            0 <= k < s.notes.len() && (#[trigger] s.notes[k]).id != note_id && contains_text(
                s.notes[k].markdown,
                note_id,
            ) ==> s.backlinks(note_id).contains(s.notes[k]),
{
    let pred = refers_to(note_id);
    lemma_filter_members(s.notes, pred);
    assert forall|i: int| 0 <= i < s.backlinks(note_id).len() implies (#[trigger] s.backlinks(
        note_id,
    )[i]).id != note_id && contains_text(s.backlinks(note_id)[i].markdown, note_id)
        && s.notes.contains(s.backlinks(note_id)[i]) by {
        assert(pred(s.backlinks(note_id)[i]));
    }
    assert forall|k: int|
        0 <= k < s.notes.len() && (#[trigger] s.notes[k]).id != note_id && contains_text(
            s.notes[k].markdown,
            note_id,
        ) implies s.backlinks(note_id).contains(s.notes[k]) by {
        assert(pred(s.notes[k]));
    }
}

/// The notes that refer to the note `note_id`: every other note whose text
/// holds that identifier, in the order of the table. The note itself is never
/// among them.
pub fn get_backlinks(store: &Store, note_id: String) -> (out: Vec<Note>)
    ensures
        views(out@) == store@.backlinks(note_id@),
        forall|i: int|
            0 <= i < out@.len() ==> (#[trigger] out@[i])@.id != note_id@ && contains_text(
                out@[i]@.markdown,
                note_id@,
            ) && store@.notes.contains(out@[i]@),
        forall|k: int|
            0 <= k < store@.notes.len() && (#[trigger] store@.notes[k]).id != note_id@
                && contains_text(store@.notes[k].markdown, note_id@) ==> views(out@).contains(
                store@.notes[k],
            ),
{
    let rows = store.notes();
    let ghost rv = views(rows@);
    let ghost pred = refers_to(note_id@);
    let needle = chars_of(note_id.as_str());
    let mut out: Vec<Note> = Vec::new();
    let mut i: usize = 0;
    assert(rv.take(0).filter(pred) =~= Seq::<NoteView>::empty()) by {
        rv.take(0).lemma_filter_len(pred);
    }
    while i < rows.len()
        invariant
            i <= rows.len(),
            rv == views(rows@),
            pred == refers_to(note_id@),
            needle@ == note_id@,
            views(out@) == rv.take(i as int).filter(pred),
        decreases rows.len() - i,
    {
        proof {
            lemma_filter_take_step(rv, pred, i as int);
        }
        if rows[i].id != note_id {
            let hay = chars_of(rows[i].markdown.as_str());
            if chars_contain(&hay, &needle) {
                let row = rows[i].duplicate();
                assert(views(out@.push(row)) =~= views(out@).push(row@));
                out.push(row);
            }
        }
        i += 1;
    }
    proof {
        assert(rv.take(rows@.len() as int) =~= rv);
        lemma_backlinks(store@, note_id@);
        assert forall|i: int| 0 <= i < out@.len() implies (#[trigger] out@[i])@.id != note_id@
            && contains_text(out@[i]@.markdown, note_id@) && store@.notes.contains(out@[i]@) by {
            assert(out@[i]@ == store@.backlinks(note_id@)[i]);
        }
    }
    out
}

} // verus!
