//! Stable ordering of rows by a key of a number and a text.

use crate::models::views;
use crate::text::{chars_le, lemma_lex_le_total, lemma_lex_le_transitive, lex_le};
use vstd::prelude::*;

verus! {

/// The key by which a row is ordered: a number first, then a text.
pub struct SortKey {
    pub rank: i32,
    pub text: Vec<char>,
}

pub struct SortKeyView {
    pub rank: int,
    pub text: Seq<char>,
}

impl View for SortKey {
    type V = SortKeyView;

    open spec fn view(&self) -> SortKeyView {
        SortKeyView { rank: self.rank as int, text: self.text@ }
    }
}

/// `a` is at most `b`: by the number, and between equal numbers by the text.
pub open spec fn key_le(a: SortKeyView, b: SortKeyView) -> bool {
    a.rank < b.rank || (a.rank == b.rank && lex_le(a.text, b.text))
}

/// A row with key `a` may stand before a row with key `b`.
pub open spec fn precedes(a: SortKeyView, b: SortKeyView, descending: bool) -> bool {
    if descending {
        key_le(b, a)
    } else {
        key_le(a, b)
    }
}

pub proof fn lemma_precedes_total(a: SortKeyView, b: SortKeyView, descending: bool)
    ensures
        precedes(a, b, descending) || precedes(b, a, descending),
{
    lemma_lex_le_total(a.text, b.text);
}

pub proof fn lemma_precedes_transitive(
    a: SortKeyView,
    b: SortKeyView,
    c: SortKeyView,
    descending: bool,
)
    requires
        precedes(a, b, descending),
        precedes(b, c, descending),
    ensures
        precedes(a, c, descending),
{
    if descending {
        if c.rank == b.rank && b.rank == a.rank {
            lemma_lex_le_transitive(c.text, b.text, a.text);
        }
    } else {
        if a.rank == b.rank && b.rank == c.rank {
            lemma_lex_le_transitive(a.text, b.text, c.text);
        }
    }
}

/// Where the row `x` goes into `order`: behind the last row that may stand
/// before it.
pub open spec fn insert_position(
    order: Seq<int>,
    keys: Seq<SortKeyView>,
    x: int,
    descending: bool,
) -> int
    decreases order.len(),
{
    if order.len() == 0 {
        0
    } else if precedes(keys[order.last()], keys[x], descending) {
        order.len() as int
    } else {
        insert_position(order.drop_last(), keys, x, descending)
    }
}

/// The positions of the first `n` rows in their stable order.
pub open spec fn order_prefix(keys: Seq<SortKeyView>, n: nat, descending: bool) -> Seq<int>
    decreases n,
{
    if n == 0 {
        Seq::empty()
    } else {
        let rest = order_prefix(keys, (n - 1) as nat, descending);
        rest.insert(insert_position(rest, keys, n - 1, descending), n - 1)
    }
}

/// The positions of all rows in their stable order: `stable_order(keys, d)[i]`
/// is the position, among `keys`, of the row that comes out at place `i`.
pub open spec fn stable_order(keys: Seq<SortKeyView>, descending: bool) -> Seq<int> {
    order_prefix(keys, keys.len(), descending)
}

/// The rows picked from `rows` at the positions that `order` lists.
pub open spec fn arranged<A>(rows: Seq<A>, order: Seq<int>) -> Seq<A> {
    Seq::new(order.len(), |i: int| rows[order[i]])
}

/// `order` lists each of the first `n` positions once, in an order in which
/// every row may stand before all later ones, and rows that may stand either
/// way keep the order of their positions.
pub open spec fn is_stable_order(
    order: Seq<int>,
    keys: Seq<SortKeyView>,
    n: int,
    descending: bool,
) -> bool {
    &&& order.len() == n
    &&& forall|i: int| 0 <= i < n ==> 0 <= #[trigger] order[i] < n
    &&& forall|k: int| 0 <= k < n ==> #[trigger] order.contains(k)
    &&& forall|i: int, j: int|
        #![trigger order[i], order[j]]
        0 <= i < j < n ==> order[i] != order[j]
    &&& forall|i: int, j: int|
        #![trigger order[i], order[j]]
        0 <= i < j < n ==> precedes(keys[order[i]], keys[order[j]], descending)
    &&& forall|i: int, j: int|
        #![trigger order[i], order[j]]
        0 <= i < j < n && precedes(keys[order[j]], keys[order[i]], descending) ==> order[i]
            < order[j]
}

proof fn lemma_insert_position(order: Seq<int>, keys: Seq<SortKeyView>, x: int, descending: bool)
    ensures
        0 <= insert_position(order, keys, x, descending) <= order.len(),
        forall|i: int|
            insert_position(order, keys, x, descending) <= i < order.len() ==> !precedes(
                keys[#[trigger] order[i]],
                keys[x],
                descending,
            ),
        insert_position(order, keys, x, descending) > 0 ==> precedes(
            keys[order[insert_position(order, keys, x, descending) - 1]],
            keys[x],
            descending,
        ),
    decreases order.len(),
{
    if order.len() > 0 && !precedes(keys[order.last()], keys[x], descending) {
        lemma_insert_position(order.drop_last(), keys, x, descending);
        let p = insert_position(order.drop_last(), keys, x, descending);
        assert forall|i: int| p <= i < order.len() implies !precedes(
            keys[#[trigger] order[i]],
            keys[x],
            descending,
        ) by {
            if i < order.len() - 1 {
                assert(order.drop_last()[i] == order[i]);
            }
        }
        if p > 0 {
            assert(order.drop_last()[p - 1] == order[p - 1]);
        }
    }
}

proof fn lemma_insert_keeps_order(rest: Seq<int>, keys: Seq<SortKeyView>, n: int, descending: bool)
    requires
        1 <= n,
        is_stable_order(rest, keys, n - 1, descending),
    ensures
        is_stable_order(
            rest.insert(insert_position(rest, keys, n - 1, descending), n - 1),
            keys,
            n,
            descending,
        ),
{
    let x = n - 1;
    let p = insert_position(rest, keys, x, descending);
    let new = rest.insert(p, x);
    lemma_insert_position(rest, keys, x, descending);
    rest.insert_ensures(p, x);
    assert forall|i: int| 0 <= i < n implies new[i] == (if i < p {
        rest[i]
    } else if i == p {
        x
    } else {
        rest[i - 1]
    }) by {}
    assert forall|i: int| 0 <= i < p implies precedes(
        keys[#[trigger] rest[i]],
        keys[x],
        descending,
    ) by {
        if i < p - 1 {
            assert(precedes(keys[rest[i]], keys[rest[p - 1]], descending));
            lemma_precedes_transitive(keys[rest[i]], keys[rest[p - 1]], keys[x], descending);
        }
    }
    assert forall|i: int| p <= i < n - 1 implies precedes(
        keys[x],
        keys[#[trigger] rest[i]],
        descending,
    ) by {
        lemma_precedes_total(keys[x], keys[rest[i]], descending);
    }
    assert forall|i: int| 0 <= i < n implies 0 <= #[trigger] new[i] < n by {
        if i < p {
            assert(0 <= rest[i] < n - 1);
        } else if i > p {
            assert(0 <= rest[i - 1] < n - 1);
        }
    }
    assert forall|k: int| 0 <= k < n implies #[trigger] new.contains(k) by {
        if k == x {
            assert(new[p] == k);
        } else {
            assert(rest.contains(k));
            let i = choose|i: int| 0 <= i < rest.len() && rest[i] == k;
            if i < p {
                assert(new[i] == k);
            } else {
                assert(new[i + 1] == k);
            }
        }
    }
    assert forall|i: int, j: int|
        #![trigger new[i], new[j]]
        0 <= i < j < n implies new[i] != new[j] && precedes(
        keys[new[i]],
        keys[new[j]],
        descending,
    ) && (precedes(keys[new[j]], keys[new[i]], descending) ==> new[i] < new[j]) by {
        let a = if i < p {
            i
        } else {
            i - 1
        };
        let b = if j < p {
            j
        } else {
            j - 1
        };
        if i == p {
            assert(new[j] == rest[b]);
            assert(0 <= rest[b] < n - 1);
            assert(!precedes(keys[rest[b]], keys[x], descending));
        } else if j == p {
            assert(new[i] == rest[a]);
            assert(0 <= rest[a] < n - 1);
            assert(precedes(keys[rest[a]], keys[x], descending));
        } else {
            assert(new[i] == rest[a]);
            assert(new[j] == rest[b]);
            assert(rest[a] != rest[b]);
            assert(precedes(keys[rest[a]], keys[rest[b]], descending));
        }
    }
}

/// The stable order of the first `n` rows is one: see `is_stable_order`.
pub proof fn lemma_order_prefix(keys: Seq<SortKeyView>, n: nat, descending: bool)
    ensures
        is_stable_order(order_prefix(keys, n, descending), keys, n as int, descending),
    decreases n,
{
    if n > 0 {
        lemma_order_prefix(keys, (n - 1) as nat, descending);
        lemma_insert_keeps_order(
            order_prefix(keys, (n - 1) as nat, descending),
            keys,
            n as int,
            descending,
        );
    }
}

/// Ordering sorts: the stable order lists every position once, no row stands
/// behind one that must come later, and ties keep the order of the rows.
pub proof fn lemma_stable_order_sorts(keys: Seq<SortKeyView>, descending: bool)
    ensures
        is_stable_order(stable_order(keys, descending), keys, keys.len() as int, descending),
{
    lemma_order_prefix(keys, keys.len(), descending);
}

/// Arranging rows by the stable order of their keys moves rows and neither
/// drops nor repeats one: the result at place `i` is the row whose position
/// the order lists there, and every row is found in the result.
pub proof fn lemma_arranged_rows<A>(rows: Seq<A>, keys: Seq<SortKeyView>, descending: bool)
    requires
        keys.len() == rows.len(),
    ensures
        arranged(rows, stable_order(keys, descending)).len() == rows.len(),
        forall|k: int|
            0 <= k < rows.len() ==> arranged(rows, stable_order(keys, descending)).contains(
                #[trigger] rows[k],
            ),
        forall|i: int|
            0 <= i < rows.len() ==> rows.contains(
                #[trigger] arranged(rows, stable_order(keys, descending))[i],
            ),
{
    let order = stable_order(keys, descending);
    let out = arranged(rows, order);
    lemma_stable_order_sorts(keys, descending);
    assert forall|k: int| 0 <= k < rows.len() implies out.contains(#[trigger] rows[k]) by {
        assert(order.contains(k));
        let i = choose|i: int| 0 <= i < order.len() && order[i] == k;
        assert(out[i] == rows[k]);
    }
    assert forall|i: int| 0 <= i < rows.len() implies rows.contains(#[trigger] out[i]) by {
        assert(0 <= order[i] < rows.len());
        assert(rows[order[i]] == out[i]);
    }
}

pub fn key_precedes(a: &SortKey, b: &SortKey, descending: bool) -> (r: bool)
    ensures
        r == precedes(a@, b@, descending),
{
    if descending {
        b.rank < a.rank || (b.rank == a.rank && chars_le(&b.text, &a.text))
    } else {
        a.rank < b.rank || (a.rank == b.rank && chars_le(&a.text, &b.text))
    }
}

/// The stable order of the rows whose keys are `keys`: the result lists, place
/// by place, the position of the row that stands there.
pub fn sort_positions(keys: &Vec<SortKey>, descending: bool) -> (order: Vec<usize>)
    ensures
        order@.len() == keys@.len(),
        order@.map_values(|p: usize| p as int) == stable_order(views(keys@), descending),
        forall|i: int| 0 <= i < order@.len() ==> #[trigger] order@[i] < keys@.len(),
{
    let ghost kv = views(keys@);
    let mut order: Vec<usize> = Vec::new();
    let mut x: usize = 0;
    assert(order@.map_values(|p: usize| p as int) =~= order_prefix(kv, 0, descending));
    while x < keys.len()
        invariant
            x <= keys.len(),
            kv == views(keys@),
            order@.len() == x,
            order@.map_values(|p: usize| p as int) == order_prefix(kv, x as nat, descending),
            forall|i: int| 0 <= i < order@.len() ==> #[trigger] order@[i] < x,
        decreases keys.len() - x,
    {
        let ghost rest = order_prefix(kv, x as nat, descending);
        let mut p: usize = order.len();
        let mut found = false;
        assert(rest.take(p as int) =~= rest);
        while p > 0 && !found
            invariant
                p <= order@.len(),
                order@.len() == x,
                x < keys.len(),
                kv == views(keys@),
                rest == order@.map_values(|p: usize| p as int),
                forall|i: int| 0 <= i < order@.len() ==> #[trigger] order@[i] < x,
                insert_position(rest, kv, x as int, descending) == insert_position(
                    rest.take(p as int),
                    kv,
                    x as int,
                    descending,
                ),
                found ==> p > 0 && precedes(kv[rest[p - 1]], kv[x as int], descending),
            decreases p + (if found { 0int } else { 1int }),
        {
            let before = order[p - 1];
            assert(rest[p - 1] == before as int);
            assert(rest.take(p as int).last() == rest[p - 1]);
            if key_precedes(&keys[before], &keys[x], descending) {
                found = true;
            } else {
                assert(rest.take(p as int).drop_last() =~= rest.take(p - 1));
                p -= 1;
            }
        }
        proof {
            if found {
                assert(rest.take(p as int).last() == rest[p - 1]);
            }
            assert(insert_position(rest, kv, x as int, descending) == p);
        }
        order.insert(p, x);
        assert(order@.map_values(|p: usize| p as int) =~= rest.insert(p as int, x as int));
        x += 1;
    }
    order
}

} // verus!
