//! What a function over groups is computed for: which rows make up a group.
use crate::aggregate::{self, GroupV};
use crate::assoc;
use crate::ast::ItemV;
use crate::error::ErrV;
use crate::executor;
use crate::grouping;
use crate::identity;
use crate::keying;
use crate::plan::PlanV;
use crate::rows::{self, TableV};
use crate::semantics::EnvV;
use crate::store::StoreV;
use crate::totals;
use crate::value::{RecV, ValV};
use vstd::prelude::*;

verus! {

/// The rows at places.
pub open spec fn rows_at(rs: Seq<RecV>, part: Seq<int>) -> Seq<RecV> {
    Seq::new(part.len(), |j: int| rs[part[j]])
}

/// Places among the first `n`, in ascending order, at least one of them.
pub open spec fn is_part(part: Seq<int>, n: int) -> bool {
    &&& part.len() > 0
    &&& forall|j: int| 0 <= j < part.len() ==> 0 <= #[trigger] part[j] < n
    &&& forall|j: int, k: int| 0 <= j < k < part.len() ==> #[trigger] part[j] < #[trigger] part[k]
}

/// A value is what an item that aggregates gives for rows.
pub open spec fn totalled(item: ItemV, rs: Seq<RecV>, v: ValV, st: StoreV) -> bool {
    exists|d: EnvV| #[trigger]
        aggregate::aggregate(item.expression, rs, d, st) == Ok::<ValV, ErrV>(v)
}

/// Every one of the first `n` places is in a part.
pub open spec fn covered(parts: Seq<Seq<int>>, n: int) -> bool {
    forall|i: int|
        #![trigger placed(parts, i)]
        0 <= i < n ==> placed(parts, i)
}

/// A place is in one of the parts.
pub open spec fn placed(parts: Seq<Seq<int>>, i: int) -> bool {
    exists|r: int| 0 <= r < parts.len() && (#[trigger] parts[r]).contains(i)
}

/// Groups that the first `n` rows make, and their places.
spec fn gathers(
    groups: Seq<GroupV>,
    parts: Seq<Seq<int>>,
    rs: Seq<RecV>,
    vals: Seq<ValV>,
    n: int,
) -> bool {
    &&& groups.len() == parts.len()
    &&& covered(parts, n)
    &&& forall|r: int|
        0 <= r < parts.len() ==> is_part(#[trigger] parts[r], n) && groups[r].rows == rows_at(
            rs,
            parts[r],
        ) && groups[r].values == seq![vals[parts[r][0]]]
    &&& forall|r: int, j: int|
        0 <= r < parts.len() && 0 <= j < parts[r].len() ==> keying::row_key(
            seq![vals[#[trigger] parts[r][j]]],
        ) == groups[r].key
    &&& forall|r: int, s: int|
        0 <= r < s < groups.len() ==> (#[trigger] groups[r]).key != (#[trigger] groups[s]).key
}

proof fn lemma_gathers(
    groups: Seq<GroupV>,
    parts: Seq<Seq<int>>,
    rs: Seq<RecV>,
    vals: Seq<ValV>,
    n: int,
) -> (next: Seq<Seq<int>>)
    requires
        gathers(groups, parts, rs, vals, n),
        0 <= n < rs.len(),
        rs.len() == vals.len(),
    ensures
        gathers(aggregate::with_row(groups, seq![vals[n]], rs[n]), next, rs, vals, n + 1),
{
    let key = keying::row_key(seq![vals[n]]);
    let after = aggregate::with_row(groups, seq![vals[n]], rs[n]);
    grouping::lemma_position(groups, key, 0);
    let next = match aggregate::group_position(groups, key, 0) {
        Some(p) => parts.update(p, parts[p].push(n)),
        None => parts.push(seq![n]),
    };
    let at = match aggregate::group_position(groups, key, 0) {
        Some(p) => p,
        None => parts.len() as int,
    };
    assert(next[at].contains(n)) by {
        assert(next[at][next[at].len() - 1] == n);
    }
    assert forall|i: int| #![trigger placed(next, i)] 0 <= i < n + 1 implies placed(next, i) by {
        if i < n {
            assert(placed(parts, i));
            let r = choose|r: int| 0 <= r < parts.len() && (#[trigger] parts[r]).contains(i);
            let j = choose|j: int| 0 <= j < parts[r].len() && parts[r][j] == i;
            assert(next[r][j] == i);
            assert(next[r].contains(i));
        } else {
            assert(next[at].contains(i));
        }
    }
    assert forall|r: int| 0 <= r < next.len() implies is_part(#[trigger] next[r], n + 1)
        && after[r].rows == rows_at(rs, next[r]) && after[r].values == seq![vals[next[r][0]]] by {
        if r < parts.len() {
            assert(is_part(parts[r], n));
            assert(after[r].rows =~= rows_at(rs, next[r]));
        } else {
            assert(after[r].rows =~= rows_at(rs, next[r]));
        }
    }
    assert forall|r: int, j: int|
        0 <= r < next.len() && 0 <= j < next[r].len() implies keying::row_key(
        seq![vals[#[trigger] next[r][j]]],
    ) == after[r].key by {
        if r < parts.len() && j < parts[r].len() {
            assert(next[r][j] == parts[r][j]);
        } else {
            assert(next[r][j] == n);
        }
    }
    next
}

proof fn lemma_grouped(
    items: Seq<ItemV>,
    groups: Seq<GroupV>,
    parts: Seq<Seq<int>>,
    rs: Seq<RecV>,
    vals: Seq<ValV>,
    i: int,
    env: EnvV,
    st: StoreV,
) -> (all: Seq<Seq<int>>)
    requires
        items.len() == 2,
        !aggregate::aggregates(items[0].expression),
        aggregate::aggregates(items[1].expression),
        totals::has_values(items[0].expression, rs, vals, st),
        0 <= i <= rs.len(),
        gathers(groups, parts, rs, vals, i),
    ensures
        aggregate::grouped(items, rs, i, groups, env, st) matches Ok(out) && gathers(
            out,
            all,
            rs,
            vals,
            rs.len() as int,
        ),
    decreases rs.len() - i,
{
    if i < rs.len() {
        reveal_with_fuel(aggregate::group_key, 3);
        let none: Seq<ValV> = seq![];
        assert(none.push(vals[i]) =~= seq![vals[i]]);
        assert(aggregate::group_key(items, 0, none, rs[i], env.at(i), st) == Ok::<Seq<ValV>, ErrV>(
            seq![vals[i]],
        ));
        let next = lemma_gathers(groups, parts, rs, vals, i);
        lemma_grouped(
            items,
            aggregate::with_row(groups, seq![vals[i]], rs[i]),
            next,
            rs,
            vals,
            i + 1,
            env,
            st,
        )
    } else {
        parts
    }
}

proof fn lemma_rows(
    items: Seq<ItemV>,
    cols: Seq<Seq<char>>,
    groups: Seq<GroupV>,
    g: int,
    acc: Seq<RecV>,
    env: EnvV,
    st: StoreV,
)
    requires
        items.len() == 2 && cols.len() == 2 && cols[0] != cols[1],
        !aggregate::aggregates(items[0].expression),
        aggregate::aggregates(items[1].expression),
        0 <= g <= groups.len(),
        acc.len() == g,
        forall|r: int| 0 <= r < g ==> shown(items, cols, groups[r], #[trigger] acc[r], st),
    ensures
        aggregate::group_rows(items, cols, groups, g, acc, env, st) matches Ok(out) ==> out.len()
            == groups.len() && forall|r: int|
            0 <= r < groups.len() ==> shown(items, cols, groups[r], #[trigger] out[r], st),
    decreases groups.len() - g,
{
    if g < groups.len() {
        reveal_with_fuel(aggregate::key_columns, 3);
        reveal_with_fuel(aggregate::aggregate_columns, 3);
        let none: RecV = seq![];
        let rec = aggregate::key_columns(items, cols, 0, groups[g].values, 0, none);
        assert(rec == assoc::bind(none, cols[0], groups[g].values[0]));
        let d = env.at(g).at(1);
        if let Ok(v) = aggregate::aggregate(items[1].expression, groups[g].rows, d, st) {
            let out = assoc::bind(rec, cols[1], v);
            assoc::lemma_lookup_bind(none, cols[0], groups[g].values[0], cols[0]);
            assoc::lemma_lookup_bind(rec, cols[1], v, cols[0]);
            assoc::lemma_lookup_bind(rec, cols[1], v, cols[1]);
            assert(totalled(items[1], groups[g].rows, v, st));
            assert(shown(items, cols, groups[g], out, st));
            lemma_rows(items, cols, groups, g + 1, acc.push(out), env, st);
        }
    }
}

/// A row shows the value of a group and what the item gives for its rows.
spec fn shown(items: Seq<ItemV>, cols: Seq<Seq<char>>, g: GroupV, row: RecV, st: StoreV) -> bool {
    &&& assoc::lookup(row, cols[0]) == Some(g.values[0])
    &&& assoc::lookup(row, cols[1]) matches Some(v) && totalled(items[1], g.rows, v, st)
}

/// RETURN of a value and of a function over groups gives one row for each
/// value that there is: the rows in which the value is the same are one group,
/// and the function is computed for just these, in their order.
pub proof fn lemma_return_groups(
    input: Box<PlanV>,
    t: TableV,
    key: ItemV,
    total: ItemV,
    vals: Seq<ValV>,
    env: EnvV,
    st: StoreV,
) -> (parts: Seq<Seq<int>>)
    requires
        !aggregate::aggregates(key.expression),
        aggregate::aggregates(total.expression),
        totals::has_values(key.expression, t.rows, vals, st),
        forall|i: int| 0 <= i < vals.len() ==> identity::plainly_keyed(#[trigger] vals[i]),
        rows::columns(seq![key, total]).no_duplicates(),
    ensures
        covered(parts, t.rows.len() as int),
        forall|r: int| 0 <= r < parts.len() ==> is_part(#[trigger] parts[r], t.rows.len() as int),
        forall|r: int, j: int, s: int, k: int|
            0 <= r < parts.len() && 0 <= j < parts[r].len() && 0 <= s < parts.len() && 0 <= k
                < parts[s].len() ==> (r == s <==> identity::alike(
                vals[#[trigger] parts[r][j]],
                vals[#[trigger] parts[s][k]],
            )),
        ({
            let (done, after) = executor::step(
                PlanV::Return { input, items: seq![key, total], distinct: false },
                t,
                env,
                st,
            );
            &&& after == st
            &&& done matches Ok(out) ==> out.rows.len() == parts.len() && out.cols.len() == 2
                && forall|r: int|
                0 <= r < parts.len() ==> assoc::lookup(#[trigger] out.rows[r], out.cols[0]) == Some(
                    vals[parts[r][0]],
                ) && (assoc::lookup(out.rows[r], out.cols[1]) matches Some(v) && totalled(
                    total,
                    rows_at(t.rows, parts[r]),
                    v,
                    st,
                ))
        }),
{
    reveal(executor::step);
    let items = seq![key, total];
    let cols = rows::columns(items);
    let none: Seq<GroupV> = seq![];
    assert(!rows::is_star(items));
    assert(rows::effective_items(items, t.cols) == items);
    reveal_with_fuel(aggregate::some_aggregate, 3);
    reveal_with_fuel(aggregate::all_aggregate, 3);
    assert(aggregate::some_aggregate(items, 0));
    assert(!aggregate::all_aggregate(items, 0));
    let parts = lemma_grouped(items, none, seq![], t.rows, vals, 0, env.at(0), st);
    let groups = aggregate::groups_of(items, t.rows, env.at(0), st)->Ok_0;
    assert(cols[0] != cols[1]);
    lemma_rows(items, cols, groups, 0, seq![], env.at(1), st);
    assert forall|r: int, j: int, s: int, k: int|
        0 <= r < parts.len() && 0 <= j < parts[r].len() && 0 <= s < parts.len() && 0 <= k
            < parts[s].len() implies (r == s <==> identity::alike(
        vals[#[trigger] parts[r][j]],
        vals[#[trigger] parts[s][k]],
    )) by {
        assert(is_part(parts[r], t.rows.len() as int) && is_part(parts[s], t.rows.len() as int));
        let a = seq![vals[parts[r][j]]];
        let b = seq![vals[parts[s][k]]];
        identity::lemma_row_key(a, b);
        assert(a[0] == vals[parts[r][j]] && b[0] == vals[parts[s][k]]);
        assert(keying::row_key(a) == groups[r].key && keying::row_key(b) == groups[s].key);
        assert(r == s <==> groups[r].key == groups[s].key);
        if identity::all_alike(a, b) {
            assert(identity::alike(a[0], b[0]));
        }
        if identity::alike(a[0], b[0]) {
            assert(identity::all_alike(a, b));
            assert(identity::plainly_keyed(a[0]) && identity::plainly_keyed(b[0]));
        }
    }
    parts
}

} // verus!
