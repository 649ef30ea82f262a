//! The notebook tree: which notebooks stand under a given one.

use crate::models::{NoteTagView, NoteView, NotebookView};
use crate::store::{lemma_notebook_found, Store, StoreView};
use vstd::prelude::*;

verus! {

impl StoreView {
    /// The parent of the notebook `id`, if it is stored and has one.
    pub open spec fn parent_of(self, id: Seq<char>) -> Option<Seq<char>> {
        if self.has_notebook(id) {
            self.notebook(id).parent_id
        } else {
            None
        }
    }

    /// Going from `id` to its parent `steps` times ends at `root`.
    pub open spec fn climbs_to(self, id: Seq<char>, root: Seq<char>, steps: nat) -> bool
        decreases steps,
    {
        if steps == 0 {
            id == root
        } else {
            match self.parent_of(id) {
                Some(p) => self.climbs_to(p, root, (steps - 1) as nat),
                None => false,
            }
        }
    }

    /// `id` is `root` or one of its descendants.
    pub open spec fn in_subtree(self, root: Seq<char>, id: Seq<char>) -> bool {
        exists|steps: nat| self.climbs_to(id, root, steps)
    }

    /// The note `note_id` is stored in `root` or in one of its descendants.
    pub open spec fn note_in_subtree(self, root: Seq<char>, note_id: Seq<char>) -> bool {
        self.has_note(note_id) && self.in_subtree(root, self.note(note_id).notebook_id)
    }

    pub open spec fn notebook_outside(self, root: Seq<char>) -> spec_fn(NotebookView) -> bool {
        |n: NotebookView| !self.in_subtree(root, n.id)
    }

    pub open spec fn note_outside(self, root: Seq<char>) -> spec_fn(NoteView) -> bool {
        |n: NoteView| !self.in_subtree(root, n.notebook_id)
    }

    pub open spec fn link_outside(self, root: Seq<char>) -> spec_fn(NoteTagView) -> bool {
        |l: NoteTagView| !self.note_in_subtree(root, l.note_id)
    }
}

/// With unique keys the parent of a stored notebook is the one its row names.
pub proof fn lemma_parent_of_row(s: StoreView, i: int)
    requires
        s.keys_unique(),
        0 <= i < s.notebooks.len(),
    ensures
        s.parent_of(s.notebooks[i].id) == s.notebooks[i].parent_id,
{
    lemma_notebook_found(s, i);
}

/// Every notebook stands in its own subtree.
pub proof fn lemma_root_in_subtree(s: StoreView, root: Seq<char>)
    ensures
        s.in_subtree(root, root),
{
    assert(s.climbs_to(root, root, 0));
}

/// A child of a notebook of the subtree stands in the subtree.
pub proof fn lemma_child_in_subtree(s: StoreView, root: Seq<char>, i: int)
    requires
        s.keys_unique(),
        0 <= i < s.notebooks.len(),
        s.notebooks[i].parent_id is Some,
        s.in_subtree(root, s.notebooks[i].parent_id->0),
    ensures
        s.in_subtree(root, s.notebooks[i].id),
{
    let p = s.notebooks[i].parent_id->0;
    let k = choose|k: nat| s.climbs_to(p, root, k);
    lemma_parent_of_row(s, i);
    assert(s.climbs_to(s.notebooks[i].id, root, k + 1));
}

/// A notebook of the subtree other than the root has its parent in the
/// subtree.
pub proof fn lemma_subtree_member(s: StoreView, root: Seq<char>, id: Seq<char>)
    requires
        s.in_subtree(root, id),
    ensures
        id == root || (s.parent_of(id) is Some && s.in_subtree(root, s.parent_of(id)->0)),
{
    let k = choose|k: nat| s.climbs_to(id, root, k);
    if k > 0 {
        assert(s.climbs_to(s.parent_of(id)->0, root, (k - 1) as nat));
    }
}

pub open spec fn count_true(marks: Seq<bool>) -> nat
    decreases marks.len(),
{
    if marks.len() == 0 {
        0
    } else {
        count_true(marks.drop_last()) + if marks.last() {
            1nat
        } else {
            0nat
        }
    }
}

proof fn lemma_count_true_bound(marks: Seq<bool>)
    ensures
        count_true(marks) <= marks.len(),
    decreases marks.len(),
{
    if marks.len() > 0 {
        lemma_count_true_bound(marks.drop_last());
    }
}

proof fn lemma_count_true_set(marks: Seq<bool>, i: int)
    requires
        0 <= i < marks.len(),
        !marks[i],
    ensures
        count_true(marks.update(i, true)) == count_true(marks) + 1,
    decreases marks.len(),
{
    let after = marks.update(i, true);
    if i == marks.len() - 1 {
        assert(after.drop_last() =~= marks.drop_last());
    } else {
        assert(after.drop_last() =~= marks.drop_last().update(i, true));
        lemma_count_true_set(marks.drop_last(), i);
    }
}

/// Every marked notebook stands in the subtree of `root`.
pub open spec fn marks_sound(s: StoreView, root: Seq<char>, marks: Seq<bool>) -> bool {
    &&& marks.len() == s.notebooks.len()
    &&& forall|i: int|
        0 <= i < marks.len() && #[trigger] marks[i] ==> s.in_subtree(root, s.notebooks[i].id)
}

/// The root itself is marked.
pub open spec fn marks_seeded(s: StoreView, root: Seq<char>, marks: Seq<bool>) -> bool {
    forall|i: int|
        0 <= i < s.notebooks.len() && (#[trigger] s.notebooks[i]).id == root ==> marks[i]
}

/// Notebook `i` is marked, or its parent is not.
pub open spec fn closed_at(s: StoreView, marks: Seq<bool>, i: int) -> bool {
    marks[i] || s.notebooks[i].parent_id is None || forall|j: int|
        0 <= j < s.notebooks.len() && (#[trigger] s.notebooks[j]).id == s.notebooks[i].parent_id->0
            ==> !marks[j]
}

proof fn lemma_closed_marks_complete(
    s: StoreView,
    root: Seq<char>,
    marks: Seq<bool>,
    i: int,
    steps: nat,
)
    requires
        s.wf(),
        marks.len() == s.notebooks.len(),
        marks_seeded(s, root, marks),
        forall|k: int| 0 <= k < s.notebooks.len() ==> closed_at(s, marks, k),
        0 <= i < s.notebooks.len(),
        s.climbs_to(s.notebooks[i].id, root, steps),
    ensures
        marks[i],
    decreases steps,
{
    if steps > 0 {
        lemma_parent_of_row(s, i);
        let p = s.notebooks[i].parent_id->0;
        assert(s.has_notebook(p));
        let j = choose|j: int| 0 <= j < s.notebooks.len() && (#[trigger] s.notebooks[j]).id == p;
        lemma_closed_marks_complete(s, root, marks, j, (steps - 1) as nat);
        assert(closed_at(s, marks, i));
    }
}

/// For each stored notebook, in the order of the table, whether it stands in
/// the subtree of `root`.
pub fn subtree_marks(store: &Store, root: &String) -> (marks: Vec<bool>)
    requires
        store.wf(),
    ensures
        marks@.len() == store@.notebooks.len(),
        forall|i: int|
            0 <= i < marks@.len() ==> #[trigger] marks@[i] == store@.in_subtree(
                root@,
                store@.notebooks[i].id,
            ),
{
    let rows = store.notebooks();
    let n = rows.len();
    let ghost s = store@;
    let mut marks: Vec<bool> = Vec::new();
    let mut i: usize = 0;
    while i < n
        invariant
            i <= n,
            n == rows@.len(),
            s.notebooks.len() == n,
            s.notebooks == crate::models::views(rows@),
            marks@.len() == i,
            forall|k: int| 0 <= k < i ==> #[trigger] marks@[k] == (s.notebooks[k].id == root@),
        decreases n - i,
    {
        marks.push(rows[i].id == *root);
        i += 1;
    }
    proof {
        assert forall|k: int| 0 <= k < marks@.len() && #[trigger] marks@[k] implies s.in_subtree(
            root@,
            s.notebooks[k].id,
        ) by {
            lemma_root_in_subtree(s, root@);
        }
    }
    loop
        invariant
            store.wf(),
            s == store@,
            n == rows@.len(),
            s.notebooks == crate::models::views(rows@),
            marks_sound(s, root@, marks@),
            marks_seeded(s, root@, marks@),
        ensures
            marks_sound(s, root@, marks@),
            marks_seeded(s, root@, marks@),
            forall|k: int| 0 <= k < s.notebooks.len() ==> closed_at(s, marks@, k),
        decreases n - count_true(marks@),
    {
        let ghost start = marks@;
        let mut changed = false;
        let mut i: usize = 0;
        proof {
            lemma_count_true_bound(marks@);
        }
        while i < n
            invariant
                i <= n,
                store.wf(),
                s == store@,
                n == rows@.len(),
                s.notebooks == crate::models::views(rows@),
                marks_sound(s, root@, marks@),
                marks_seeded(s, root@, marks@),
                !changed ==> marks@ == start,
                !changed ==> forall|k: int| 0 <= k < i ==> closed_at(s, marks@, k),
                changed ==> count_true(marks@) > count_true(start),
                count_true(marks@) <= n,
            decreases n - i,
        {
            if !marks[i] {
                match &rows[i].parent_id {
                    Some(p) => {
                        match store.notebook_position(p) {
                            Some(j) => {
                                if marks[j] {
                                    proof {
                                        lemma_count_true_set(marks@, i as int);
                                        lemma_count_true_bound(marks@.update(i as int, true));
                                        lemma_child_in_subtree(s, root@, i as int);
                                    }
                                    marks.set(i, true);
                                    changed = true;
                                } else {
                                    assert forall|k: int|
                                        0 <= k < s.notebooks.len() && (
                                        #[trigger] s.notebooks[k]).id
                                            == s.notebooks[i as int].parent_id->0 implies !marks@[k] by {
                                        if k < j {
                                            assert(s.notebooks[k].id != s.notebooks[j as int].id);
                                        } else if j < k {
                                            assert(s.notebooks[j as int].id != s.notebooks[k].id);
                                        }
                                    }
                                    assert(closed_at(s, marks@, i as int));
                                }
                            },
                            None => {
                                assert(closed_at(s, marks@, i as int));
                            },
                        }
                    },
                    None => {
                        assert(closed_at(s, marks@, i as int));
                    },
                }
            } else {
                assert(closed_at(s, marks@, i as int));
            }
            i += 1;
        }
        if !changed {
            break ;
        }
    }
    proof {
        assert forall|i: int| 0 <= i < marks@.len() implies #[trigger] marks@[i] == s.in_subtree(
            root@,
            s.notebooks[i].id,
        ) by {
            if s.in_subtree(root@, s.notebooks[i].id) {
                let steps = choose|steps: nat| s.climbs_to(s.notebooks[i].id, root@, steps);
                lemma_closed_marks_complete(s, root@, marks@, i, steps);
            }
        }
    }
    marks
}

} // verus!
