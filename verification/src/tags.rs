//! Tags: created on first use, attached to notes and detached from them.

use crate::models::{
    is_uuid_text, new_id, views, NoteTag, NoteTagView, StoreError, Tag, TagView,
};
use crate::order::{
    arranged, lemma_arranged_rows, lemma_stable_order_sorts, precedes, sort_positions,
    stable_order, SortKey, SortKeyView,
};
use crate::seqs::{lemma_filter_keeps_pairs, lemma_filter_members, lemma_filter_take_step};
use crate::store::{
    lemma_note_ids_kept, lemma_notebook_ids_kept, lemma_tag_found, lemma_tags_kept, Store,
    StoreView,
};
use crate::text::{chars_of, lex_le};
use vstd::prelude::*;

verus! {

/// Tags are listed by name.
pub open spec fn tag_key(t: TagView) -> SortKeyView {
    SortKeyView { rank: 0, text: t.name }
}

pub open spec fn tag_keys(rows: Seq<TagView>) -> Seq<SortKeyView> {
    rows.map_values(|t: TagView| tag_key(t))
}

/// Why a tag cannot be attached, if it cannot: a tag that has to be created
/// needs a new identifier, and the note must be stored.
pub open spec fn attach_tag_error(
    s: StoreView,
    note_id: Seq<char>,
    name: Seq<char>,
    fresh: Seq<char>,
) -> Option<StoreError> {
    if !s.has_tag_named(name) && s.has_tag(fresh) {
        Some(StoreError::DuplicateId)
    } else if !s.has_note(note_id) {
        Some(StoreError::UnknownNote)
    } else {
        None
    }
}

impl StoreView {
    /// The identifier under which the tag `name` is or will be stored.
    pub open spec fn tag_id_for(self, name: Seq<char>, fresh: Seq<char>) -> Seq<char> {
        if self.has_tag_named(name) {
            self.tag_named(name).id
        } else {
            fresh
        }
    }

    /// The store with the tag `name` on the note: the tag is created under
    /// `fresh` unless one of that name is stored, and the association is added
    /// unless it is there.
    pub open spec fn with_tag_attached(
        self,
        note_id: Seq<char>,
        name: Seq<char>,
        fresh: Seq<char>,
    ) -> StoreView {
        let tag_id = self.tag_id_for(name, fresh);
        StoreView {
            tags: if self.has_tag_named(name) {
                self.tags
            } else {
                self.tags.push(TagView { id: fresh, name })
            },
            links: if self.has_link(note_id, tag_id) {
                self.links
            } else {
                self.links.push(NoteTagView { note_id, tag_id })
            },
            ..self
        }
    }

    /// Every association but the one of the note with the tag `name`.
    pub open spec fn other_link(self, note_id: Seq<char>, name: Seq<char>) -> spec_fn(
        NoteTagView,
    ) -> bool {
        |l: NoteTagView|
            !(l.note_id == note_id && self.has_tag_named(name) && l.tag_id == self.tag_named(
                name,
            ).id)
    }

    /// The store without the tag `name` on the note. The tag itself stays.
    pub open spec fn with_tag_detached(self, note_id: Seq<char>, name: Seq<char>) -> StoreView {
        StoreView { links: self.links.filter(self.other_link(note_id, name)), ..self }
    }

    pub open spec fn tag_on_note(self, note_id: Seq<char>) -> spec_fn(TagView) -> bool {
        |t: TagView| self.has_link(note_id, t.id)
    }

    /// The tags of a note, in the order in which the tags were created.
    pub open spec fn tags_of_note(self, note_id: Seq<char>) -> Seq<TagView> {
        self.tags.filter(self.tag_on_note(note_id))
    }

    /// All tags by name.
    pub open spec fn listed_tags(self) -> Seq<TagView> {
        arranged(self.tags, stable_order(tag_keys(self.tags), false))
    }
}

/// The tags of a note are the stored tags that the note is associated with.
pub proof fn lemma_tags_of_note(s: StoreView, note_id: Seq<char>)
    ensures
        forall|k: int|
            0 <= k < s.tags.len() && s.has_link(note_id, (#[trigger] s.tags[k]).id)
                ==> s.tags_of_note(note_id).contains(s.tags[k]),
        forall|i: int|
            0 <= i < s.tags_of_note(note_id).len() ==> s.tags.contains(
                #[trigger] s.tags_of_note(note_id)[i],
            ) && s.has_link(note_id, s.tags_of_note(note_id)[i].id),
{
    let pred = s.tag_on_note(note_id);
    lemma_filter_members(s.tags, pred);
    assert forall|k: int|
        0 <= k < s.tags.len() && s.has_link(
            note_id,
            (#[trigger] s.tags[k]).id,
        ) implies s.tags_of_note(note_id).contains(s.tags[k]) by {
        assert(pred(s.tags[k]));
    }
    assert forall|i: int| 0 <= i < s.tags_of_note(note_id).len() implies s.tags.contains(
        #[trigger] s.tags_of_note(note_id)[i],
    ) && s.has_link(note_id, s.tags_of_note(note_id)[i].id) by {
        assert(pred(s.tags_of_note(note_id)[i]));
    }
}

/// The tags that are associated with the note.
pub fn get_tags_for_note(store: &Store, note_id: String) -> (out: Vec<Tag>)
    ensures
        views(out@) == store@.tags_of_note(note_id@),
        forall|k: int|
            0 <= k < store@.tags.len() && store@.has_link(note_id@, (#[trigger] store@.tags[k]).id)
                ==> views(out@).contains(store@.tags[k]),
        forall|i: int|
            0 <= i < out@.len() ==> store@.tags.contains((#[trigger] out@[i])@) && store@.has_link(
                note_id@,
                out@[i]@.id,
            ),
{
    let rows = store.tags();
    let ghost rv = views(rows@);
    let ghost s = store@;
    let ghost pred = s.tag_on_note(note_id@);
    let mut out: Vec<Tag> = Vec::new();
    let mut i: usize = 0;
    assert(rv.take(0).filter(pred) =~= Seq::<TagView>::empty()) by {
        rv.take(0).lemma_filter_len(pred);
    }
    while i < rows.len()
        invariant
            i <= rows.len(),
            s == store@,
            rv == views(rows@),
            pred == s.tag_on_note(note_id@),
            views(out@) == rv.take(i as int).filter(pred),
        decreases rows.len() - i,
    {
        proof {
            lemma_filter_take_step(rv, pred, i as int);
        }
        if store.is_linked(&note_id, &rows[i].id) {
            let row = rows[i].duplicate();
            assert(views(out@.push(row)) =~= views(out@).push(row@));
            out.push(row);
        }
        i += 1;
    }
    proof {
        assert(rv.take(rows@.len() as int) =~= rv);
        lemma_tags_of_note(s, note_id@);
        assert forall|i: int| 0 <= i < out@.len() implies s.tags.contains((#[trigger] out@[i])@)
            && s.has_link(note_id@, out@[i]@.id) by {
            assert(out@[i]@ == s.tags_of_note(note_id@)[i]);
        }
    }
    out
}

/// A listing holds every tag once, and no tag stands behind one whose name
/// comes later.
pub proof fn lemma_listed_tags(s: StoreView)
    ensures
        s.listed_tags().len() == s.tags.len(),
        forall|k: int| 0 <= k < s.tags.len() ==> s.listed_tags().contains(#[trigger] s.tags[k]),
        forall|i: int| 0 <= i < s.tags.len() ==> s.tags.contains(#[trigger] s.listed_tags()[i]),
        forall|i: int, j: int|
            #![trigger s.listed_tags()[i], s.listed_tags()[j]]
            0 <= i < j < s.tags.len() ==> lex_le(s.listed_tags()[i].name, s.listed_tags()[j].name),
{
    let keys = tag_keys(s.tags);
    lemma_arranged_rows(s.tags, keys, false);
    lemma_stable_order_sorts(keys, false);
    let order = stable_order(keys, false);
    assert forall|i: int, j: int|
        #![trigger s.listed_tags()[i], s.listed_tags()[j]]
        0 <= i < j < s.tags.len() implies lex_le(
        s.listed_tags()[i].name,
        s.listed_tags()[j].name,
    ) by {
        assert(0 <= order[i] < keys.len() && 0 <= order[j] < keys.len());
        assert(precedes(keys[order[i]], keys[order[j]], false));
    }
}

/// All tags, by name in the order of code points.
pub fn get_all_tags(store: &Store) -> (out: Vec<Tag>)
    ensures
        views(out@) == store@.listed_tags(),
        out@.len() == store@.tags.len(),
        forall|k: int|
            0 <= k < store@.tags.len() ==> views(out@).contains(#[trigger] store@.tags[k]),
        forall|i: int, j: int|
            #![trigger out@[i], out@[j]]
            0 <= i < j < out@.len() ==> lex_le(out@[i]@.name, out@[j]@.name),
{
    let rows = store.tags();
    let ghost rv = views(rows@);
    let mut keys: Vec<SortKey> = Vec::new();
    let mut i: usize = 0;
    while i < rows.len()
        invariant
            i <= rows.len(),
            rv == views(rows@),
            keys@.len() == i,
            forall|k: int| 0 <= k < i ==> (#[trigger] keys@[k])@ == tag_key(rv[k]),
        decreases rows.len() - i,
    {
        keys.push(SortKey { rank: 0, text: chars_of(rows[i].name.as_str()) });
        i += 1;
    }
    assert(views(keys@) =~= tag_keys(rv));
    let order = sort_positions(&keys, false);
    let ghost spec_order = stable_order(tag_keys(rv), false);
    let mut out: Vec<Tag> = Vec::new();
    let mut i: usize = 0;
    while i < order.len()
        invariant
            i <= order.len(),
            rv == views(rows@),
            order@.len() == rows@.len(),
            order@.map_values(|p: usize| p as int) == spec_order,
            forall|k: int| 0 <= k < order@.len() ==> #[trigger] order@[k] < rows@.len(),
            out@.len() == i,
            forall|k: int| 0 <= k < i ==> (#[trigger] out@[k])@ == rv[spec_order[k]],
        decreases order.len() - i,
    {
        assert(spec_order[i as int] == order@[i as int] as int);
        out.push(rows[order[i]].duplicate());
        i += 1;
    }
    proof {
        assert(views(out@) =~= store@.listed_tags());
        lemma_listed_tags(store@);
        assert forall|i: int, j: int|
            #![trigger out@[i], out@[j]]
            0 <= i < j < out@.len() implies lex_le(out@[i]@.name, out@[j]@.name) by {
            assert(out@[i]@ == store@.listed_tags()[i]);
            assert(out@[j]@ == store@.listed_tags()[j]);
        }
    }
    out
}

/// A new tag keeps the constraints.
proof fn lemma_push_tag_wf(s: StoreView, row: TagView)
    requires
        s.wf(),
        !s.has_tag(row.id),
        !s.has_tag_named(row.name),
    ensures
        (StoreView { tags: s.tags.push(row), ..s }).wf(),
{
    let t = StoreView { tags: s.tags.push(row), ..s };
    lemma_notebook_ids_kept(s, t);
    lemma_note_ids_kept(s, t);
    lemma_tags_kept(s, t);
    assert forall|i: int, j: int|
        #![trigger t.tags[i], t.tags[j]]
        0 <= i < j < t.tags.len() implies t.tags[i].id != t.tags[j].id && t.tags[i].name
        != t.tags[j].name by {
        if j < s.tags.len() {
            assert(s.tags[i].id != s.tags[j].id);
            assert(s.tags[i].name != s.tags[j].name);
        } else {
            assert(s.tags[i].id != row.id);
            assert(s.tags[i].name != row.name);
        }
    }
    assert forall|i: int|
        0 <= i < t.notebooks.len() && (#[trigger] t.notebooks[i]).parent_id is Some implies t.has_notebook(
        t.notebooks[i].parent_id->0,
    ) by {
        assert(s.has_notebook(s.notebooks[i].parent_id->0));
    }
    assert forall|i: int| 0 <= i < t.notes.len() implies t.has_notebook(
        (#[trigger] t.notes[i]).notebook_id,
    ) by {
        assert(s.has_notebook(s.notes[i].notebook_id));
    }
    assert forall|i: int| 0 <= i < t.links.len() implies t.has_note(
        (#[trigger] t.links[i]).note_id,
    ) && t.has_tag(t.links[i].tag_id) by {
        assert(s.has_note(s.links[i].note_id) && s.has_tag(s.links[i].tag_id));
    }
}

/// A new association between a stored note and a stored tag keeps the
/// constraints.
proof fn lemma_push_link_wf(s: StoreView, row: NoteTagView)
    requires
        s.wf(),
        s.has_note(row.note_id),
        s.has_tag(row.tag_id),
        !s.has_link(row.note_id, row.tag_id),
    ensures
        (StoreView { links: s.links.push(row), ..s }).wf(),
{
    let t = StoreView { links: s.links.push(row), ..s };
    lemma_notebook_ids_kept(s, t);
    lemma_note_ids_kept(s, t);
    lemma_tags_kept(s, t);
    assert forall|i: int, j: int|
        #![trigger t.links[i], t.links[j]]
        0 <= i < j < t.links.len() implies t.links[i] != t.links[j] by {
        if j < s.links.len() {
            assert(s.links[i] != s.links[j]);
        } else {
            assert(s.links[i] != (NoteTagView { note_id: row.note_id, tag_id: row.tag_id }));
        }
    }
    assert forall|i: int|
        0 <= i < t.notebooks.len() && (#[trigger] t.notebooks[i]).parent_id is Some implies t.has_notebook(
        t.notebooks[i].parent_id->0,
    ) by {
        assert(s.has_notebook(s.notebooks[i].parent_id->0));
    }
    assert forall|i: int| 0 <= i < t.notes.len() implies t.has_notebook(
        (#[trigger] t.notes[i]).notebook_id,
    ) by {
        assert(s.has_notebook(s.notes[i].notebook_id));
    }
    assert forall|i: int| 0 <= i < t.links.len() implies t.has_note(
        (#[trigger] t.links[i]).note_id,
    ) && t.has_tag(t.links[i].tag_id) by {
        if i < s.links.len() {
            assert(s.has_note(s.links[i].note_id) && s.has_tag(s.links[i].tag_id));
        }
    }
}

/// Puts the tag `tag_name` on the note. A tag of that name is used if one is
/// stored; else one is created under `fresh_id`. An association that is
/// already there is left as it is. On an error nothing changes.
pub fn attach_tag(store: &mut Store, note_id: String, tag_name: String, fresh_id: String) -> (r:
    Result<(), StoreError>)
    requires
        old(store).wf(),
    ensures
        final(store).wf(),
        match attach_tag_error(old(store)@, note_id@, tag_name@, fresh_id@) {
            Some(e) => r == Err::<(), StoreError>(e) && final(store)@ == old(store)@,
            None => r is Ok && final(store)@ == old(store)@.with_tag_attached(
                note_id@,
                tag_name@,
                fresh_id@,
            ),
        },
{
    let ghost s = store@;
    let found = store.tag_position_by_name(&tag_name);
    if found.is_none() && store.tag_position(&fresh_id).is_some() {
        return Err(StoreError::DuplicateId);
    }
    if store.note_position(&note_id).is_none() {
        return Err(StoreError::UnknownNote);
    }
    let tag_id = match found {
        Some(i) => {
            proof {
                lemma_tag_found(s, i as int);
            }
            store.tags()[i].id.clone()
        },
        None => {
            let row = Tag { id: fresh_id.clone(), name: tag_name };
            proof {
                lemma_push_tag_wf(s, row@);
            }
            store.push_tag(row);
            fresh_id
        },
    };
    assert(tag_id@ == s.tag_id_for(tag_name@, fresh_id@));
    let ghost mid = store@;
    proof {
        lemma_tags_kept(s, mid);
        assert(mid.has_tag(tag_id@)) by {
            if s.has_tag_named(tag_name@) {
                let k = choose|k: int|
                    0 <= k < s.tags.len() && (#[trigger] s.tags[k]).name == tag_name@;
                lemma_tag_found(s, k);
                assert(s.has_tag(s.tags[k].id));
            } else {
                assert(mid.tags[s.tags.len() as int].id == tag_id@);
            }
        }
        assert(mid.links == s.links);
        assert(mid.notes == s.notes);
    }
    if !store.is_linked(&note_id, &tag_id) {
        let row = NoteTag { note_id, tag_id };
        proof {
            lemma_push_link_wf(mid, row@);
        }
        store.push_link(row);
    }
    Ok(())
}

/// Puts the tag `tag_name` on the note, creating the tag under a fresh
/// identifier where none of that name is stored.
pub fn add_tag_to_note(store: &mut Store, note_id: String, tag_name: String) -> (r: Result<
    (),
    StoreError,
>)
    requires
        old(store).wf(),
    ensures
        final(store).wf(),
        final(store)@.notebooks == old(store)@.notebooks,
        final(store)@.notes == old(store)@.notes,
        r is Err ==> final(store)@ == old(store)@,
        exists|fresh: Seq<char>|
            is_uuid_text(fresh) && match #[trigger] attach_tag_error(
                old(store)@,
                note_id@,
                tag_name@,
                fresh,
            ) {
                Some(e) => r == Err::<(), StoreError>(e) && final(store)@ == old(store)@,
                None => r is Ok && final(store)@ == old(store)@.with_tag_attached(
                    note_id@,
                    tag_name@,
                    fresh,
                ),
            },
{
    let fresh_id = new_id();
    let ghost fresh = fresh_id@;
    let r = attach_tag(store, note_id, tag_name, fresh_id);
    assert(is_uuid_text(fresh));
    r
}

/// Taking associations away keeps the constraints.
pub proof fn lemma_detach_wf(s: StoreView, note_id: Seq<char>, name: Seq<char>)
    requires
        s.wf(),
    ensures
        s.with_tag_detached(note_id, name).wf(),
{
    let t = s.with_tag_detached(note_id, name);
    let lk = s.other_link(note_id, name);
    lemma_notebook_ids_kept(s, t);
    lemma_note_ids_kept(s, t);
    lemma_tags_kept(s, t);
    lemma_filter_members(s.links, lk);
    let distinct_links = |a: NoteTagView, b: NoteTagView| a != b;
    assert forall|i: int, j: int| 0 <= i < j < s.links.len() implies #[trigger] distinct_links(
        s.links[i],
        s.links[j],
    ) by {}
    lemma_filter_keeps_pairs(s.links, lk, distinct_links);
    assert forall|i: int, j: int|
        #![trigger t.links[i], t.links[j]]
        0 <= i < j < t.links.len() implies t.links[i] != t.links[j] by {
        assert(distinct_links(t.links[i], t.links[j]));
    }
    assert forall|i: int|
        0 <= i < t.notebooks.len() && (#[trigger] t.notebooks[i]).parent_id is Some implies t.has_notebook(
        t.notebooks[i].parent_id->0,
    ) by {
        assert(s.has_notebook(s.notebooks[i].parent_id->0));
    }
    assert forall|i: int| 0 <= i < t.notes.len() implies t.has_notebook(
        (#[trigger] t.notes[i]).notebook_id,
    ) by {
        assert(s.has_notebook(s.notes[i].notebook_id));
    }
    assert forall|i: int| 0 <= i < t.links.len() implies t.has_note(
        (#[trigger] t.links[i]).note_id,
    ) && t.has_tag(t.links[i].tag_id) by {
        assert(s.links.contains(t.links[i]));
        let a = choose|a: int| 0 <= a < s.links.len() && s.links[a] == t.links[i];
        assert(s.has_note(s.links[a].note_id) && s.has_tag(s.links[a].tag_id));
    }
}

/// Takes the tag `tag_name` off the note. Where no tag of that name is
/// stored, or the note does not carry it, nothing changes. The tag itself is
/// never deleted, whether or not a note still carries it.
pub fn remove_tag_from_note(store: &mut Store, note_id: String, tag_name: String)
    requires
        old(store).wf(),
    ensures
        final(store).wf(),
        final(store)@ == old(store)@.with_tag_detached(note_id@, tag_name@),
        final(store)@.tags == old(store)@.tags,
{
    let ghost s = store@;
    let ghost pred = s.other_link(note_id@, tag_name@);
    let found = store.tag_position_by_name(&tag_name);
    let links = store.links();
    let tags = store.tags();
    let ghost lv = views(links@);
    let mut kept: Vec<NoteTag> = Vec::new();
    let mut i: usize = 0;
    assert(lv.take(0).filter(pred) =~= Seq::<NoteTagView>::empty()) by {
        lv.take(0).lemma_filter_len(pred);
    }
    while i < links.len()
        invariant
            i <= links.len(),
            s == store@,
            s.keys_unique(),
            lv == views(links@),
            views(tags@) == s.tags,
            pred == s.other_link(note_id@, tag_name@),
            found is Some <==> s.has_tag_named(tag_name@),
            found matches Some(k) ==> k < s.tags.len() && s.tags[k as int].name == tag_name@,
            views(kept@) == lv.take(i as int).filter(pred),
        decreases links.len() - i,
    {
        proof {
            lemma_filter_take_step(lv, pred, i as int);
        }
        let hit = match found {
            Some(k) => {
                proof {
                    lemma_tag_found(s, k as int);
                }
                links[i].note_id == note_id && links[i].tag_id == tags[k].id
            },
            None => false,
        };
        if !hit {
            let row = links[i].duplicate();
            assert(views(kept@.push(row)) =~= views(kept@).push(row@));
            kept.push(row);
        }
        i += 1;
    }
    assert(lv.take(links@.len() as int) =~= lv);
    proof {
        lemma_detach_wf(s, note_id@, tag_name@);
    }
    store.set_links(kept);
}

/// Attaching is idempotent. After a tag was put on a note, putting it there
/// again succeeds and changes nothing; one tag of that name is stored, and
/// one association of the note with it.
pub proof fn lemma_attach_idempotent(
    s: StoreView,
    note_id: Seq<char>,
    name: Seq<char>,
    first: Seq<char>,
    second: Seq<char>,
)
    requires
        s.wf(),
        attach_tag_error(s, note_id, name, first) is None,
    ensures
        ({
            let t = s.with_tag_attached(note_id, name, first);
            &&& t.wf()
            &&& attach_tag_error(t, note_id, name, second) is None
            &&& t.with_tag_attached(note_id, name, second) == t
            &&& t.has_tag_named(name)
            &&& forall|i: int, j: int|
                0 <= i < t.tags.len() && 0 <= j < t.tags.len() && (#[trigger] t.tags[i]).name
                    == name && (#[trigger] t.tags[j]).name == name ==> i == j
            &&& t.has_link(note_id, t.tag_named(name).id)
            &&& forall|i: int, j: int|
                0 <= i < t.links.len() && 0 <= j < t.links.len() && #[trigger] t.links[i]
                    == (NoteTagView { note_id, tag_id: t.tag_named(name).id })
                    && #[trigger] t.links[j] == t.links[i] ==> i == j
        }),
{
    let tag_id = s.tag_id_for(name, first);
    let mid = StoreView {
        tags: if s.has_tag_named(name) {
            s.tags
        } else {
            s.tags.push(TagView { id: first, name })
        },
        ..s
    };
    if !s.has_tag_named(name) {
        lemma_push_tag_wf(s, TagView { id: first, name });
        assert(mid.tags[s.tags.len() as int].name == name);
        assert(mid.tags[s.tags.len() as int].id == first);
        lemma_tag_found(mid, s.tags.len() as int);
    } else {
        let k = choose|k: int| 0 <= k < s.tags.len() && (#[trigger] s.tags[k]).name == name;
        lemma_tag_found(s, k);
        assert(s.has_tag(s.tags[k].id));
    }
    assert(mid.wf());
    assert(mid.has_tag_named(name));
    assert(mid.tag_named(name).id == tag_id);
    assert(mid.has_tag(tag_id));
    lemma_note_ids_kept(s, mid);
    assert(mid.has_link(note_id, tag_id) == s.has_link(note_id, tag_id));
    let t = s.with_tag_attached(note_id, name, first);
    if !s.has_link(note_id, tag_id) {
        lemma_push_link_wf(mid, NoteTagView { note_id, tag_id });
        assert(t == (StoreView { links: mid.links.push(NoteTagView { note_id, tag_id }), ..mid }));
        assert(t.links[s.links.len() as int] == (NoteTagView { note_id, tag_id }));
    } else {
        assert(t == mid);
    }
    assert(t.tags == mid.tags);
    assert(t.has_tag_named(name));
    assert(t.tag_named(name) == mid.tag_named(name));
    assert(t.has_link(note_id, tag_id));
    lemma_note_ids_kept(s, t);
    assert forall|i: int, j: int|
        0 <= i < t.tags.len() && 0 <= j < t.tags.len() && (#[trigger] t.tags[i]).name == name && (
        #[trigger] t.tags[j]).name == name implies i == j by {
        if i < j {
            assert(t.tags[i].name != t.tags[j].name);
        } else if j < i {
            assert(t.tags[j].name != t.tags[i].name);
        }
    }
    assert forall|i: int, j: int|
        0 <= i < t.links.len() && 0 <= j < t.links.len() && #[trigger] t.links[i] == (NoteTagView {
            note_id,
            tag_id: t.tag_named(name).id,
        }) && #[trigger] t.links[j] == t.links[i] implies i == j by {
        if i < j {
            assert(t.links[i] != t.links[j]);
        } else if j < i {
            assert(t.links[j] != t.links[i]);
        }
    }
}

} // verus!
