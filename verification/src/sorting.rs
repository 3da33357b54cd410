//! What ORDER BY, `min` and `max` give.
use crate::aggregate;
use crate::arrange;
use crate::ast::{ExprV, SortV};
use crate::error::ErrV;
use crate::number;
use crate::ops;
use crate::rows;
use crate::semantics::EnvV;
use crate::store::StoreV;
use crate::text::{self, Order};
use crate::value::{RecV, ValV};
use vstd::prelude::*;

verus! {

// ---------------------------------------------------------------------------
// Keys
// ---------------------------------------------------------------------------

/// Two values of one kind that has an order: integers, floating-point values
/// that are numbers, texts, or truth values.
pub open spec fn of_one_kind(a: ValV, b: ValV) -> bool {
    match (a, b) {
        (ValV::Integer(_), ValV::Integer(_)) => true,
        (ValV::Float(x), ValV::Float(y)) => !number::is_nan(x) && !number::is_nan(y),
        (ValV::Str(_), ValV::Str(_)) => true,
        (ValV::Boolean(_), ValV::Boolean(_)) => true,
        _ => false,
    }
}

/// The keys of rows, of which those of each column are of one kind.
pub open spec fn comparable(items: Seq<SortV>, keyed: Seq<(Seq<ValV>, RecV)>) -> bool {
    forall|i: int, j: int, k: int|
        0 <= i < keyed.len() && 0 <= j < keyed.len() && 0 <= k < items.len() ==> of_one_kind(
            #[trigger] keyed[i].0[k],
            #[trigger] keyed[j].0[k],
        )
}

proof fn lemma_key_order(item: SortV, a: ValV, b: ValV, c: ValV)
    requires
        of_one_kind(a, b),
        of_one_kind(b, c),
    ensures
        rows::key_order(item, b, a) == rows::key_order(item, a, b).flipped(),
        rows::key_order(item, a, b) is Equal ==> rows::key_order(item, a, c) == rows::key_order(
            item,
            b,
            c,
        ),
        rows::key_order(item, b, c) is Equal ==> rows::key_order(item, a, c) == rows::key_order(
            item,
            a,
            b,
        ),
        rows::key_order(item, a, b) == rows::key_order(item, b, c) ==> rows::key_order(item, a, c)
            == rows::key_order(item, a, b),
{
    reveal(ops::value_order);
    if let (ValV::Str(x), ValV::Str(y)) = (a, b) {
        let z = c->Str_0;
        text::lemma_text_order(x, y);
        text::lemma_text_order(y, z);
        text::lemma_text_order(x, z);
        if text::text_order(x, y) is Less && text::text_order(y, z) is Less {
            text::lemma_text_order_through(x, y, z);
        }
        if text::text_order(x, y) is Greater && text::text_order(y, z) is Greater {
            text::lemma_text_order_through(z, y, x);
        }
    }
}

proof fn lemma_keys_after(items: Seq<SortV>, i: int, a: Seq<ValV>, b: Seq<ValV>, c: Seq<ValV>)
    requires
        0 <= i,
        forall|k: int| 0 <= k < items.len() ==> of_one_kind(#[trigger] a[k], b[k]),
        forall|k: int| 0 <= k < items.len() ==> of_one_kind(#[trigger] b[k], c[k]),
    ensures
        rows::keys_after(items, i, a, b) ==> !rows::keys_after(items, i, b, a),
        !rows::keys_after(items, i, a, b) && !rows::keys_after(items, i, b, c)
            ==> !rows::keys_after(items, i, a, c),
    decreases items.len() - i,
{
    if i < items.len() {
        assert(of_one_kind(a[i], b[i]));
        assert(of_one_kind(b[i], c[i]));
        lemma_key_order(items[i], a[i], b[i], c[i]);
        lemma_keys_after(items, i + 1, a, b, c);
    }
}

// ---------------------------------------------------------------------------
// Rows
// ---------------------------------------------------------------------------

proof fn lemma_with_keys(
    items: Seq<SortV>,
    rs: Seq<RecV>,
    i: int,
    acc: Seq<(Seq<ValV>, RecV)>,
    env: EnvV,
    st: StoreV,
)
    requires
        0 <= i <= rs.len(),
        rows::without_keys(acc) == rs.take(i),
    ensures
        rows::with_keys(items, rs, i, acc, env, st) matches Ok(s) ==> rows::without_keys(s) == rs,
    decreases rs.len() - i,
{
    if i < rs.len() {
        if let Ok(k) = rows::sort_key(items, 0, seq![], rs[i], env.at(i), st) {
            let next = acc.push((k, rs[i]));
            assert(rows::without_keys(next) =~= rows::without_keys(acc).push(rs[i]));
            assert(rs.take(i).push(rs[i]) =~= rs.take(i + 1));
            lemma_with_keys(items, rs, i + 1, next, env, st);
        }
    } else {
        assert(rs.take(i) =~= rs);
    }
}

proof fn lemma_placed_rows(
    s: Seq<(Seq<ValV>, RecV)>,
    x: (Seq<ValV>, RecV),
    after: spec_fn((Seq<ValV>, RecV), (Seq<ValV>, RecV)) -> bool,
)
    ensures
        rows::without_keys(arrange::placed(s, x, after)).to_multiset() == rows::without_keys(
            s,
        ).to_multiset().insert(x.1),
    decreases s.len(),
{
    broadcast use vstd::seq_lib::group_to_multiset_ensures;

    let all = rows::without_keys(s);
    if s.len() > 0 && after(s.last(), x) {
        let t = s.drop_last();
        let front = rows::without_keys(t);
        let q = arrange::placed(t, x, after);
        lemma_placed_rows(t, x, after);
        assert(all =~= front.push(s.last().1));
        assert(rows::without_keys(q.push(s.last())) =~= rows::without_keys(q).push(s.last().1));
        assert(front.to_multiset().insert(x.1).insert(s.last().1)
            =~= front.to_multiset().insert(s.last().1).insert(x.1));
    } else {
        assert(rows::without_keys(s.push(x)) =~= all.push(x.1));
    }
}

proof fn lemma_arranged_rows(
    s: Seq<(Seq<ValV>, RecV)>,
    after: spec_fn((Seq<ValV>, RecV), (Seq<ValV>, RecV)) -> bool,
)
    ensures
        rows::without_keys(arrange::arranged(s, after)).to_multiset() == rows::without_keys(
            s,
        ).to_multiset(),
    decreases s.len(),
{
    broadcast use vstd::seq_lib::group_to_multiset_ensures;

    if s.len() > 0 {
        let t = s.drop_last();
        lemma_arranged_rows(t, after);
        lemma_placed_rows(arrange::arranged(t, after), s.last(), after);
        assert(rows::without_keys(s) =~= rows::without_keys(t).push(s.last().1));
    } else {
        assert(rows::without_keys(s) =~= rows::without_keys(arrange::arranged(s, after)));
    }
}

/// ORDER BY gives the rows that it gets, each as often as it gets it.
pub proof fn lemma_sorted_same_rows(items: Seq<SortV>, rs: Seq<RecV>, env: EnvV, st: StoreV)
    ensures
        rows::sorted_rows(items, rs, env, st) matches Ok(out) ==> out.to_multiset()
            == rs.to_multiset() && out.len() == rs.len(),
{
    broadcast use vstd::seq_lib::group_to_multiset_ensures;

    let none = Seq::<(Seq<ValV>, RecV)>::empty();
    assert(rows::without_keys(none) =~= rs.take(0));
    lemma_with_keys(items, rs, 0, none, env, st);
    if let Ok(s) = rows::with_keys(items, rs, 0, none, env, st) {
        lemma_arranged_rows(s, rows::row_after(items));
        arrange::lemma_arranged_same_items(s, rows::row_after(items));
    }
}

/// Where the keys of each column are of one kind, ORDER BY gives the rows in
/// the order of their keys: no row must come after one that stands behind it.
pub proof fn lemma_sorted_in_order(items: Seq<SortV>, rs: Seq<RecV>, env: EnvV, st: StoreV)
    requires
        rows::with_keys(items, rs, 0, seq![], env, st) is Ok,
        comparable(items, rows::with_keys(items, rs, 0, seq![], env, st)->Ok_0),
    ensures
        ({
            let keyed = rows::with_keys(items, rs, 0, seq![], env, st)->Ok_0;
            let sorted = arrange::arranged(keyed, rows::row_after(items));
            &&& rows::sorted_rows(items, rs, env, st) == Ok::<Seq<RecV>, ErrV>(
                rows::without_keys(sorted),
            )
            &&& sorted.to_multiset() == keyed.to_multiset()
            &&& arrange::in_order(sorted, rows::row_after(items))
        }),
{
    let keyed = rows::with_keys(items, rs, 0, seq![], env, st)->Ok_0;
    let after = rows::row_after(items);
    let among = |x: (Seq<ValV>, RecV)| exists|i: int| 0 <= i < keyed.len() && keyed[i] == x;
    assert forall|a: (Seq<ValV>, RecV), b: (Seq<ValV>, RecV)|
        among(a) && among(b) && #[trigger] after(a, b) implies !after(b, a) by {
        lemma_keys_after(items, 0, a.0, b.0, a.0);
    }
    assert forall|a: (Seq<ValV>, RecV), b: (Seq<ValV>, RecV), c: (Seq<ValV>, RecV)|
        among(a) && among(b) && among(c) && !(#[trigger] after(a, b)) && !(#[trigger] after(
            b,
            c,
        )) implies !after(a, c) by {
        lemma_keys_after(items, 0, a.0, b.0, c.0);
    }
    assert forall|i: int| 0 <= i < keyed.len() implies among(#[trigger] keyed[i]) by {}
    arrange::lemma_arranged_in_order(keyed, after, among);
    arrange::lemma_arranged_same_items(keyed, after);
}

// ---------------------------------------------------------------------------
// The least and the greatest value
// ---------------------------------------------------------------------------

/// Values of one kind.
pub open spec fn all_of_one_kind(vals: Seq<ValV>) -> bool {
    forall|i: int, j: int|
        0 <= i < vals.len() && 0 <= j < vals.len() ==> of_one_kind(
            #[trigger] vals[i],
            #[trigger] vals[j],
        )
}

/// One value is above another.
pub open spec fn is_above(a: ValV, b: ValV) -> bool {
    ops::value_order(a, b) == Some(Order::Greater)
}

proof fn lemma_value_order(a: ValV, b: ValV, c: ValV)
    requires
        of_one_kind(a, b),
        of_one_kind(b, c),
    ensures
        is_above(a, b) ==> !is_above(b, a),
        !is_above(a, b) && !is_above(b, c) ==> !is_above(a, c),
        !is_above(a, a),
{
    reveal(ops::value_order);
    let up = SortV { expression: ExprV::Variable(seq![]), ascending: true };
    lemma_key_order(up, a, b, c);
    lemma_key_order(up, a, a, a);
}

proof fn lemma_least(vals: Seq<ValV>, i: int, b: int)
    requires
        all_of_one_kind(vals),
        0 <= b < i <= vals.len(),
        forall|j: int| 0 <= j < i ==> !is_above(vals[b], #[trigger] vals[j]),
    ensures
        vals.contains(aggregate::least(vals, i, vals[b])),
        forall|j: int|
            0 <= j < vals.len() ==> !is_above(
                aggregate::least(vals, i, vals[b]),
                #[trigger] vals[j],
            ),
    decreases vals.len() - i,
{
    if i < vals.len() {
        if is_above(vals[b], vals[i]) {
            assert forall|j: int| 0 <= j < i + 1 implies !is_above(vals[i], #[trigger] vals[j]) by {
                lemma_value_order(vals[i], vals[b], vals[j]);
                lemma_value_order(vals[b], vals[i], vals[i]);
                lemma_value_order(vals[i], vals[i], vals[i]);
            }
            lemma_least(vals, i + 1, i);
        } else {
            lemma_least(vals, i + 1, b);
        }
    }
}

proof fn lemma_greatest(vals: Seq<ValV>, i: int, b: int)
    requires
        all_of_one_kind(vals),
        0 <= b < i <= vals.len(),
        forall|j: int| 0 <= j < i ==> !is_above(#[trigger] vals[j], vals[b]),
    ensures
        vals.contains(aggregate::greatest(vals, i, vals[b])),
        forall|j: int|
            0 <= j < vals.len() ==> !is_above(
                #[trigger] vals[j],
                aggregate::greatest(vals, i, vals[b]),
            ),
    decreases vals.len() - i,
{
    if i < vals.len() {
        if is_above(vals[b], vals[i]) {
            assert(!is_above(vals[i], vals[b])) by {
                lemma_value_order(vals[b], vals[i], vals[i]);
            }
            lemma_greatest(vals, i + 1, b);
        } else {
            assert forall|j: int| 0 <= j < i + 1 implies !is_above(#[trigger] vals[j], vals[i]) by {
                lemma_value_order(vals[j], vals[b], vals[i]);
                lemma_value_order(vals[i], vals[i], vals[i]);
            }
            lemma_greatest(vals, i + 1, i);
        }
    }
}

/// Of values of one kind, `min` gives one that is above none of them, and
/// `max` one that none of them is above.
pub proof fn lemma_min_max(vals: Seq<ValV>)
    requires
        vals.len() > 0,
        all_of_one_kind(vals),
    ensures
        vals.contains(aggregate::min_of(vals)),
        vals.contains(aggregate::max_of(vals)),
        forall|i: int|
            0 <= i < vals.len() ==> !is_above(aggregate::min_of(vals), #[trigger] vals[i])
                && !is_above(vals[i], aggregate::max_of(vals)),
{
    lemma_value_order(vals[0], vals[0], vals[0]);
    lemma_least(vals, 1, 0);
    lemma_greatest(vals, 1, 0);
}

} // verus!
