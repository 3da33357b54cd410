//! What the steps that read make of the rows of a table.
use crate::aggregate;
use crate::arrange;
use crate::assoc;
use crate::ast::{ExprV, ItemV, SortV};
use crate::combining;
use crate::error::ErrV;
use crate::executor;
use crate::index;
use crate::ops;
use crate::plan::PlanV;
use crate::rows::{self, TableV};
use crate::semantics::{self, EnvV};
use crate::sorting;
use crate::store::{self, StoreV};
use crate::totals;
use crate::value::{NodeV, RecV, ValV};
use vstd::prelude::*;

verus! {

// ---------------------------------------------------------------------------
// Scans
// ---------------------------------------------------------------------------

/// A scan gives one row for each node with the label, or for each node where no
/// label is asked for, in the order of their identifiers.
pub proof fn lemma_scan(x: Seq<char>, label: Option<Seq<char>>, env: EnvV, st: StoreV) -> (ids: Seq<u64>)
    requires
        store::well_formed(st),
    ensures
        ({
            let done = executor::run(
                PlanV::ScanNodes { label_filter: label, inline_props: seq![], variable: x },
                env,
                st,
            );
            &&& done.1 == st
            &&& forall|a: int, b: int| 0 <= a < b < ids.len() ==> #[trigger] ids[a] < #[trigger] ids[b]
            &&& forall|i: int|
                0 <= i < st.nodes.len() ==> (#[trigger] ids.contains(i as u64) <==> (st.nodes[i] matches Some(n)
                    && (label matches Some(l) ==> n.labels.contains(l))))
            &&& done.0 matches Ok(out) && out.cols == seq![x] && out.rows.len() == ids.len()
                && forall|k: int|
                0 <= k < ids.len() ==> ids[k] < st.nodes.len() && st.nodes[ids[k] as int] is Some
                    && #[trigger] out.rows[k] == seq![
                    (x, ValV::Node(st.nodes[ids[k] as int]->0)),
                ]
        }),
{
    let p = |n: NodeV| store::has_label(n, label);
    let n = st.nodes.len() as int;
    let ids = store::chosen_ids(st.nodes, p, n);
    index::lemma_chosen(st.nodes, p, n);
    index::lemma_chosen_ids(st.nodes, p, n);
    assert(store::labelled(st, label) == store::chosen(st.nodes, p, n));
    let plan = PlanV::ScanNodes { label_filter: label, inline_props: seq![], variable: x };
    assert(executor::run(plan, env, st) == executor::source(plan, env, st));
    assert forall|i: int| 0 <= i < st.nodes.len() implies (#[trigger] ids.contains(i as u64) <==> (
    st.nodes[i] matches Some(m) && (label matches Some(l) ==> m.labels.contains(l)))) by {
        if let Some(m) = st.nodes[i] {
            if let Some(l) = label {
                if m.labels.contains(l) {
                    let k = choose|k: int| 0 <= k < m.labels.len() && m.labels[k] == l;
                    assert(m.labels[k] == l);
                }
            }
        }
    }
    assert forall|k: int| 0 <= k < ids.len() implies ids[k] < st.nodes.len()
        && st.nodes[#[trigger] ids[k] as int] is Some by {
        assert(ids.contains(ids[k]));
    }
    ids
}

// ---------------------------------------------------------------------------
// WHERE
// ---------------------------------------------------------------------------

/// WHERE keeps just the rows for which the condition is true, in order; null
/// does not do.
pub proof fn lemma_filter(
    input: Box<PlanV>,
    t: TableV,
    e: ExprV,
    vals: Seq<ValV>,
    env: EnvV,
    st: StoreV,
) -> (ps: Seq<int>)
    requires
        totals::has_values(e, t.rows, vals, st),
    ensures
        ({
            let done = executor::step(PlanV::Filter { input, predicate: e }, t, env, st);
            &&& done.1 == st
            &&& forall|a: int, b: int| 0 <= a < b < ps.len() ==> #[trigger] ps[a] < #[trigger] ps[b]
            &&& forall|i: int| #[trigger]
                ps.contains(i) <==> 0 <= i < vals.len() && vals[i] == ValV::Boolean(true)
            &&& done.0 matches Ok(out) && out.cols == t.cols && out.rows.len() == ps.len()
                && forall|k: int|
                0 <= k < ps.len() ==> #[trigger] out.rows[k] == t.rows[ps[k]]
        }),
{
    reveal(executor::step);
    lemma_filtered(t.rows, 0, seq![], seq![], e, vals, env, st)
}

proof fn lemma_filtered(
    rs: Seq<RecV>,
    i: int,
    acc: Seq<RecV>,
    before: Seq<int>,
    e: ExprV,
    vals: Seq<ValV>,
    env: EnvV,
    st: StoreV,
) -> (ps: Seq<int>)
    requires
        totals::has_values(e, rs, vals, st),
        0 <= i <= rs.len(),
        acc.len() == before.len(),
        forall|a: int, b: int|
            0 <= a < b < before.len() ==> #[trigger] before[a] < #[trigger] before[b],
        forall|k: int| #[trigger]
            before.contains(k) <==> 0 <= k < i && vals[k] == ValV::Boolean(true),
        forall|k: int| 0 <= k < before.len() ==> #[trigger] acc[k] == rs[before[k]],
    ensures
        forall|a: int, b: int| 0 <= a < b < ps.len() ==> #[trigger] ps[a] < #[trigger] ps[b],
        forall|k: int| #[trigger]
            ps.contains(k) <==> 0 <= k < rs.len() && vals[k] == ValV::Boolean(true),
        rows::filter_rows(rs, i, acc, e, env, st) matches Ok(out) && out.len() == ps.len()
            && forall|k: int| 0 <= k < ps.len() ==> #[trigger] out[k] == rs[ps[k]],
    decreases rs.len() - i,
{
    if i < rs.len() {
        assert(semantics::eval(e, rs[i], env.at(i), st) == Ok::<ValV, ErrV>(vals[i]));
        if vals[i] == ValV::Boolean(true) {
            let now = before.push(i);
            assert forall|k: int| #[trigger]
                now.contains(k) <==> 0 <= k < i + 1 && vals[k] == ValV::Boolean(true) by {
                if before.contains(k) {
                    let a = choose|a: int| 0 <= a < before.len() && before[a] == k;
                    assert(now[a] == k);
                }
                if k == i {
                    assert(now[before.len() as int] == k);
                }
                if now.contains(k) && k != i {
                    let a = choose|a: int| 0 <= a < now.len() && now[a] == k;
                    assert(before[a] == k);
                    assert(before.contains(k));
                }
            }
            assert forall|a: int, b: int| 0 <= a < b < now.len() implies #[trigger] now[a]
                < #[trigger] now[b] by {
                if b == before.len() {
                    assert(before.contains(before[a]));
                }
            }
            lemma_filtered(rs, i + 1, acc.push(rs[i]), now, e, vals, env, st)
        } else {
            assert forall|k: int| #[trigger]
                before.contains(k) <==> 0 <= k < i + 1 && vals[k] == ValV::Boolean(true) by {}
            lemma_filtered(rs, i + 1, acc, before, e, vals, env, st)
        }
    } else {
        before
    }
}

// ---------------------------------------------------------------------------
// RETURN and WITH
// ---------------------------------------------------------------------------

/// The values of items on rows, whatever random numbers are drawn.
pub open spec fn items_mean(
    items: Seq<ItemV>,
    rs: Seq<RecV>,
    vals: Seq<Seq<ValV>>,
    st: StoreV,
) -> bool {
    &&& vals.len() == rs.len()
    &&& forall|i: int| 0 <= i < rs.len() ==> (#[trigger] vals[i]).len() == items.len()
    &&& forall|i: int, k: int, d: EnvV|
        0 <= i < rs.len() && 0 <= k < items.len() ==> #[trigger] semantics::eval(
            items[k].expression,
            rs[i],
            d,
            st,
        ) == Ok::<ValV, ErrV>(vals[i][k])
}

/// RETURN gives one row for each row, with the values of the items under their
/// names, in the order of the items. So does WITH.
pub proof fn lemma_projection(
    input: Box<PlanV>,
    t: TableV,
    items: Seq<ItemV>,
    vals: Seq<Seq<ValV>>,
    env: EnvV,
    st: StoreV,
)
    requires
        items_mean(items, t.rows, vals, st),
        !aggregate::some_aggregate(items, 0),
        !rows::is_star(items),
        rows::columns(items).no_duplicates(),
    ensures
        ({
            let done = executor::step(
                PlanV::Return { input, items, distinct: false },
                t,
                env,
                st,
            );
            let with = executor::step(
                PlanV::With { input, items, distinct: false, where_predicate: None },
                t,
                env,
                st,
            );
            &&& done == with
            &&& done.1 == st
            &&& done.0 matches Ok(out) && out.cols.len() == items.len() && out.rows.len()
                == t.rows.len() && (forall|k: int|
                0 <= k < items.len() ==> ((#[trigger] items[k]).alias matches Some(a)
                    ==> out.cols[k] == a)) && (forall|k: int|
                0 <= k < items.len() && (#[trigger] items[k]).alias is None
                    && items[k].expression is Variable ==> out.cols[k]
                    == items[k].expression->Variable_0) && (forall|i: int, k: int|
                0 <= i < t.rows.len() && 0 <= k < items.len() ==> #[trigger] assoc::lookup(
                    out.rows[i],
                    out.cols[k],
                ) == Some(vals[i][k]))
        }),
{
    reveal(executor::step);
    let cols = rows::columns(items);
    lemma_project_rows(items, cols, t.rows, 0, seq![], vals, env, st);
    lemma_project_rows(items, cols, t.rows, 0, seq![], vals, env.at(0), st);
    let a = rows::project_rows(items, cols, t.rows, 0, seq![], env, st)->Ok_0;
    let b = rows::project_rows(items, cols, t.rows, 0, seq![], env.at(0), st)->Ok_0;
    assert forall|i: int| 0 <= i < t.rows.len() implies a[i] == b[i] by {
        assert(a[i] == row_of(cols, vals[i], cols.len() as int));
        assert(b[i] == row_of(cols, vals[i], cols.len() as int));
    }
    assert(a =~= b);
    assert forall|i: int, k: int| 0 <= i < t.rows.len() && 0 <= k < items.len() implies #[trigger]
    assoc::lookup(a[i], cols[k]) == Some(vals[i][k]) by {
        assert(a[i] == row_of(cols, vals[i], cols.len() as int));
        lemma_row_of(cols, vals[i], cols.len() as int, k);
    }
}

/// The row with values in the first `n` columns.
spec fn row_of(cols: Seq<Seq<char>>, vals: Seq<ValV>, n: int) -> RecV
    decreases n,
{
    if n <= 0 {
        seq![]
    } else {
        assoc::bind(row_of(cols, vals, n - 1), cols[n - 1], vals[n - 1])
    }
}

proof fn lemma_row_of(cols: Seq<Seq<char>>, vals: Seq<ValV>, n: int, k: int)
    requires
        0 <= k < n <= cols.len(),
        cols.no_duplicates(),
    ensures
        assoc::lookup(row_of(cols, vals, n), cols[k]) == Some(vals[k]),
    decreases n,
{
    let r = row_of(cols, vals, n - 1);
    assoc::lemma_lookup_bind(r, cols[n - 1], vals[n - 1], cols[k]);
    if k < n - 1 {
        lemma_row_of(cols, vals, n - 1, k);
        assert(cols[k] != cols[n - 1]);
    }
}

proof fn lemma_project_row(
    items: Seq<ItemV>,
    cols: Seq<Seq<char>>,
    k: int,
    rs: Seq<RecV>,
    i: int,
    vals: Seq<Seq<ValV>>,
    env: EnvV,
    st: StoreV,
)
    requires
        items_mean(items, rs, vals, st),
        0 <= i < rs.len(),
        0 <= k <= items.len(),
        cols.len() == items.len(),
    ensures
        rows::project_row(items, cols, k, row_of(cols, vals[i], k), rs[i], env, st) == Ok::<
            RecV,
            ErrV,
        >(row_of(cols, vals[i], cols.len() as int)),
    decreases items.len() - k,
{
    if k < items.len() {
        assert(semantics::eval(items[k].expression, rs[i], env.at(k), st) == Ok::<ValV, ErrV>(
            vals[i][k],
        ));
        lemma_project_row(items, cols, k + 1, rs, i, vals, env, st);
    }
}

proof fn lemma_project_rows(
    items: Seq<ItemV>,
    cols: Seq<Seq<char>>,
    rs: Seq<RecV>,
    i: int,
    acc: Seq<RecV>,
    vals: Seq<Seq<ValV>>,
    env: EnvV,
    st: StoreV,
)
    requires
        items_mean(items, rs, vals, st),
        0 <= i <= rs.len(),
        cols.len() == items.len(),
        acc.len() == i,
        forall|k: int|
            0 <= k < i ==> #[trigger] acc[k] == row_of(cols, vals[k], cols.len() as int),
    ensures
        rows::project_rows(items, cols, rs, i, acc, env, st) matches Ok(out) && out.len()
            == rs.len() && forall|k: int|
            0 <= k < rs.len() ==> #[trigger] out[k] == row_of(cols, vals[k], cols.len() as int),
    decreases rs.len() - i,
{
    if i < rs.len() {
        lemma_project_row(items, cols, 0, rs, i, vals, env.at(i), st);
        let r = row_of(cols, vals[i], cols.len() as int);
        lemma_project_rows(items, cols, rs, i + 1, acc.push(r), vals, env, st);
    }
}

// ---------------------------------------------------------------------------
// UNWIND
// ---------------------------------------------------------------------------

/// UNWIND gives, for each row in turn, one row for each item of its list, in
/// the order of the list; a null gives none, and what is no list is an error.
pub proof fn lemma_unwind(
    input: Box<PlanV>,
    t: TableV,
    e: ExprV,
    x: Seq<char>,
    vals: Seq<ValV>,
    env: EnvV,
    st: StoreV,
) -> (picks: Seq<(int, int)>)
    requires
        totals::has_values(e, t.rows, vals, st),
        forall|i: int| 0 <= i < vals.len() ==> #[trigger] vals[i] is List || vals[i] is Null,
    ensures
        ({
            let done = executor::step(PlanV::Unwind { input, expression: e, alias: x }, t, env, st);
            &&& done.1 == st
            &&& combining::in_turn(picks)
            &&& forall|i: int, j: int| #[trigger]
                picks.contains((i, j)) <==> 0 <= i < vals.len() && vals[i] is List && 0 <= j
                    < vals[i]->List_0.len()
            &&& done.0 matches Ok(out) && out.cols.contains(x) && out.rows.len() == picks.len()
                && forall|k: int|
                0 <= k < picks.len() ==> unwinds(
                    #[trigger] out.rows[k],
                    t.rows[picks[k].0],
                    x,
                    vals[picks[k].0]->List_0[picks[k].1],
                )
        }),
{
    reveal(executor::step);
    combining::lemma_with_col(t.cols, x);
    lemma_unwound(t.rows, 0, seq![], seq![], e, x, vals, env, st)
}

/// A row is another one in which a variable is bound to a value.
pub open spec fn unwinds(out: RecV, row: RecV, x: Seq<char>, v: ValV) -> bool {
    &&& assoc::lookup(out, x) == Some(v)
    &&& forall|y: Seq<char>| y != x ==> #[trigger] assoc::lookup(out, y) == assoc::lookup(row, y)
}

proof fn lemma_unwinds(row: RecV, x: Seq<char>, v: ValV)
    ensures
        unwinds(assoc::bind(row, x, v), row, x, v),
{
    let out = assoc::bind(row, x, v);
    assoc::lemma_lookup_bind(row, x, v, x);
    assert forall|y: Seq<char>| y != x implies #[trigger] assoc::lookup(out, y) == assoc::lookup(
        row,
        y,
    ) by {
        assoc::lemma_lookup_bind(row, x, v, y);
    }
}

spec fn listed(v: ValV) -> Seq<ValV> {
    match v {
        ValV::List(items) => items,
        _ => seq![],
    }
}

proof fn lemma_unwound(
    rs: Seq<RecV>,
    i: int,
    acc: Seq<RecV>,
    before: Seq<(int, int)>,
    e: ExprV,
    x: Seq<char>,
    vals: Seq<ValV>,
    env: EnvV,
    st: StoreV,
) -> (picks: Seq<(int, int)>)
    requires
        totals::has_values(e, rs, vals, st),
        forall|k: int| 0 <= k < vals.len() ==> #[trigger] vals[k] is List || vals[k] is Null,
        0 <= i <= rs.len(),
        combining::in_turn(before),
        acc.len() == before.len(),
        forall|a: int, b: int| #[trigger]
            before.contains((a, b)) <==> 0 <= a < i && vals[a] is List && 0 <= b
                < vals[a]->List_0.len(),
        forall|k: int|
            0 <= k < before.len() ==> unwinds(
                #[trigger] acc[k],
                rs[before[k].0],
                x,
                vals[before[k].0]->List_0[before[k].1],
            ),
    ensures
        combining::in_turn(picks),
        forall|a: int, b: int| #[trigger]
            picks.contains((a, b)) <==> 0 <= a < vals.len() && vals[a] is List && 0 <= b
                < vals[a]->List_0.len(),
        rows::unwind_rows(rs, i, acc, e, x, env, st) matches Ok(out) && out.len() == picks.len()
            && forall|k: int|
            0 <= k < picks.len() ==> unwinds(
                #[trigger] out[k],
                rs[picks[k].0],
                x,
                vals[picks[k].0]->List_0[picks[k].1],
            ),
    decreases rs.len() - i,
{
    if i < rs.len() {
        assert(semantics::eval(e, rs[i], env.at(i), st) == Ok::<ValV, ErrV>(vals[i]));
        let items = listed(vals[i]);
        let mine = Seq::new(items.len(), |k: int| (i, k));
        let own = rows::item_rows(rs[i], x, items);
        let now = before + mine;
        let more = acc + own;
        if vals[i] is Null {
            assert(own =~= seq![]);
            assert(more =~= acc);
        }
        assert forall|a: int, b: int| #[trigger]
            now.contains((a, b)) <==> 0 <= a < i + 1 && vals[a] is List && 0 <= b
                < vals[a]->List_0.len() by {
            if before.contains((a, b)) {
                let k = choose|k: int| 0 <= k < before.len() && before[k] == (a, b);
                assert(now[k] == (a, b));
            }
            if a == i && vals[a] is List && 0 <= b < items.len() {
                assert(mine[b] == (a, b));
                assert(now[before.len() + b] == (a, b));
            }
            if now.contains((a, b)) {
                let k = choose|k: int| 0 <= k < now.len() && now[k] == (a, b);
                if k < before.len() {
                    assert(before[k] == (a, b));
                    assert(before.contains((a, b)));
                } else {
                    assert(now[k] == mine[k - before.len()]);
                }
            }
        }
        assert forall|k: int| 0 <= k < now.len() implies unwinds(
            #[trigger] more[k],
            rs[now[k].0],
            x,
            vals[now[k].0]->List_0[now[k].1],
        ) by {
            if k < before.len() {
                assert(more[k] == acc[k] && now[k] == before[k]);
            } else {
                let b = k - before.len();
                assert(more[k] == own[b] && now[k] == mine[b]);
                lemma_unwinds(rs[i], x, items[b]);
            }
        }
        assert(combining::in_turn(now)) by {
            assert forall|a: int, b: int| 0 <= a < b < now.len() implies (#[trigger] now[a]).0 < (
            #[trigger] now[b]).0 || (now[a].0 == now[b].0 && now[a].1 < now[b].1) by {
                if b < before.len() {
                    assert(now[a] == before[a] && now[b] == before[b]);
                } else if a < before.len() {
                    assert(now[a] == before[a] && now[b] == mine[b - before.len()]);
                    assert(before.contains(before[a]));
                    assert(before.contains((before[a].0, before[a].1)));
                } else {
                    assert(now[a] == mine[a - before.len()] && now[b] == mine[b - before.len()]);
                }
            }
        }
        lemma_unwound(rs, i + 1, more, now, e, x, vals, env, st)
    } else {
        before
    }
}

/// A value that is no list cannot be unwound.
pub proof fn lemma_unwind_refused(
    input: Box<PlanV>,
    t: TableV,
    e: ExprV,
    x: Seq<char>,
    v: ValV,
    env: EnvV,
    st: StoreV,
)
    requires
        t.rows.len() > 0,
        totals::has_values(e, t.rows.take(1), seq![v], st),
        !(v is List) && !(v is Null),
    ensures
        executor::step(PlanV::Unwind { input, expression: e, alias: x }, t, env, st).0 is Err,
{
    reveal(executor::step);
    assert(t.rows.take(1)[0] == t.rows[0]);
    assert(semantics::eval(e, t.rows.take(1)[0], env.at(0), st) == Ok::<ValV, ErrV>(seq![v][0]));
}

// ---------------------------------------------------------------------------
// ORDER BY
// ---------------------------------------------------------------------------

/// The whole numbers by which rows are sorted.
pub open spec fn sorted_by(
    items: Seq<SortV>,
    rs: Seq<RecV>,
    keys: Seq<Seq<i64>>,
    st: StoreV,
) -> bool {
    &&& keys.len() == rs.len()
    &&& forall|i: int| 0 <= i < rs.len() ==> (#[trigger] keys[i]).len() == items.len()
    &&& forall|i: int, k: int, d: EnvV|
        0 <= i < rs.len() && 0 <= k < items.len() ==> #[trigger] semantics::eval(
            items[k].expression,
            rs[i],
            d,
            st,
        ) == Ok::<ValV, ErrV>(ValV::Integer(keys[i][k]))
}

/// One key must not stand before another: where they first differ it is the
/// greater one in ascending order, or the smaller one in descending order.
pub open spec fn out_of_order(items: Seq<SortV>, a: Seq<i64>, b: Seq<i64>) -> bool {
    exists|d: int| #[trigger] differ_at(items, a, b, d) && (if items[d].ascending {
        a[d] > b[d]
    } else {
        a[d] < b[d]
    })
}

pub open spec fn differ_at(items: Seq<SortV>, a: Seq<i64>, b: Seq<i64>, d: int) -> bool {
    &&& 0 <= d < items.len()
    &&& forall|k: int| 0 <= k < d ==> #[trigger] a[k] == b[k]
}

/// ORDER BY gives the same rows, in the order of their keys: by the first key,
/// ascending or descending as it says, then by the second, and so on.
pub proof fn lemma_order(
    input: Box<PlanV>,
    t: TableV,
    items: Seq<SortV>,
    keys: Seq<Seq<i64>>,
    env: EnvV,
    st: StoreV,
) -> (sorted: Seq<(Seq<i64>, RecV)>)
    requires
        sorted_by(items, t.rows, keys, st),
    ensures
        ({
            let done = executor::step(PlanV::Sort { input, items }, t, env, st);
            &&& done.1 == st
            &&& done.0 matches Ok(out) && out.cols == t.cols && out.rows.to_multiset()
                == t.rows.to_multiset() && out.rows.len() == sorted.len() && forall|a: int|
                0 <= a < sorted.len() ==> #[trigger] out.rows[a] == sorted[a].1
            &&& forall|a: int|
                0 <= a < sorted.len() ==> exists|i: int|
                    0 <= i < keys.len() && (keys[i], t.rows[i]) == #[trigger] sorted[a]
            &&& forall|a: int, b: int|
                0 <= a < b < sorted.len() ==> !out_of_order(
                    items,
                    (#[trigger] sorted[a]).0,
                    (#[trigger] sorted[b]).0,
                )
        }),
{
    reveal(executor::step);
    let rs = t.rows;
    lemma_keyed(items, rs, 0, seq![], keys, env, st);
    let keyed = rows::with_keys(items, rs, 0, seq![], env, st)->Ok_0;
    assert(sorting::comparable(items, keyed));
    sorting::lemma_sorted_in_order(items, rs, env, st);
    sorting::lemma_sorted_same_rows(items, rs, env, st);
    let s = arrange::arranged(keyed, rows::row_after(items));
    let sorted = Seq::new(s.len(), |a: int| (ints(s[a].0), s[a].1));
    assert forall|a: int| 0 <= a < sorted.len() implies exists|i: int|
        0 <= i < keys.len() && (keys[i], rs[i]) == #[trigger] sorted[a] && s[a].0 == numbers(
            keys[i],
        ) by {
        broadcast use vstd::seq_lib::group_to_multiset_ensures;

        assert(s.to_multiset().count(s[a]) > 0) by {
            assert(s.contains(s[a]));
        }
        assert(keyed.to_multiset().count(s[a]) > 0);
        assert(keyed.contains(s[a]));
        let i = choose|i: int| 0 <= i < keyed.len() && keyed[i] == s[a];
        assert(ints(numbers(keys[i])) =~= keys[i]);
    }
    assert forall|a: int, b: int| 0 <= a < b < sorted.len() implies !out_of_order(
        items,
        (#[trigger] sorted[a]).0,
        (#[trigger] sorted[b]).0,
    ) by {
        let i = choose|i: int|
            0 <= i < keys.len() && (keys[i], rs[i]) == #[trigger] sorted[a] && s[a].0 == numbers(
                keys[i],
            );
        let j = choose|j: int|
            0 <= j < keys.len() && (keys[j], rs[j]) == #[trigger] sorted[b] && s[b].0 == numbers(
                keys[j],
            );
        assert(!rows::row_after(items)(s[a], s[b]));
        lemma_after(items, 0, keys[i], keys[j]);
    }
    sorted
}

spec fn numbers(k: Seq<i64>) -> Seq<ValV> {
    Seq::new(k.len(), |i: int| ValV::Integer(k[i]))
}

spec fn ints(k: Seq<ValV>) -> Seq<i64> {
    Seq::new(k.len(), |i: int| k[i]->Integer_0)
}

proof fn lemma_after(items: Seq<SortV>, i: int, a: Seq<i64>, b: Seq<i64>)
    requires
        0 <= i <= items.len(),
        a.len() == items.len(),
        b.len() == items.len(),
        forall|k: int| 0 <= k < i ==> #[trigger] a[k] == b[k],
    ensures
        !rows::keys_after(items, i, numbers(a), numbers(b)) ==> !out_of_order(items, a, b),
    decreases items.len() - i,
{
    reveal(ops::value_order);
    if i < items.len() && a[i] == b[i] {
        lemma_after(items, i + 1, a, b);
    } else if out_of_order(items, a, b) {
        let d = choose|d: int| #[trigger]
            differ_at(items, a, b, d) && (if items[d].ascending {
                a[d] > b[d]
            } else {
                a[d] < b[d]
            });
        if d < i {
            assert(a[d] == b[d]);
        } else if d > i {
            assert(a[i] == b[i]);
        }
    }
}

proof fn lemma_sort_key(
    items: Seq<SortV>,
    k: int,
    rs: Seq<RecV>,
    i: int,
    keys: Seq<Seq<i64>>,
    env: EnvV,
    st: StoreV,
)
    requires
        sorted_by(items, rs, keys, st),
        0 <= i < rs.len(),
        0 <= k <= items.len(),
    ensures
        rows::sort_key(items, k, numbers(keys[i]).take(k), rs[i], env, st) == Ok::<
            Seq<ValV>,
            ErrV,
        >(numbers(keys[i])),
    decreases items.len() - k,
{
    let all = numbers(keys[i]);
    if k < items.len() {
        assert(semantics::eval(items[k].expression, rs[i], env.at(k), st) == Ok::<ValV, ErrV>(
            ValV::Integer(keys[i][k]),
        ));
        assert(all.take(k).push(ValV::Integer(keys[i][k])) =~= all.take(k + 1));
        lemma_sort_key(items, k + 1, rs, i, keys, env, st);
    } else {
        assert(all.take(k) =~= all);
    }
}

proof fn lemma_keyed(
    items: Seq<SortV>,
    rs: Seq<RecV>,
    i: int,
    acc: Seq<(Seq<ValV>, RecV)>,
    keys: Seq<Seq<i64>>,
    env: EnvV,
    st: StoreV,
)
    requires
        sorted_by(items, rs, keys, st),
        0 <= i <= rs.len(),
        acc.len() == i,
        forall|k: int| 0 <= k < i ==> #[trigger] acc[k] == (numbers(keys[k]), rs[k]),
    ensures
        rows::with_keys(items, rs, i, acc, env, st) matches Ok(s) && s.len() == rs.len() && forall|
            k: int,
        |
            0 <= k < rs.len() ==> #[trigger] s[k] == (numbers(keys[k]), rs[k]),
    decreases rs.len() - i,
{
    if i < rs.len() {
        lemma_sort_key(items, 0, rs, i, keys, env.at(i), st);
        assert(numbers(keys[i]).take(0) =~= seq![]);
        lemma_keyed(items, rs, i + 1, acc.push((numbers(keys[i]), rs[i])), keys, env, st);
    }
}

} // verus!
