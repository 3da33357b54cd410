//! Queries without random numbers.
//!
//! What a query gives, and the graph after it, depends on the state from which
//! random numbers are drawn only where `rand` is called.
use crate::aggregate::{self, GroupV};
use crate::assoc;
use crate::ast::{ChainV, ExprV, ItemV, KeyV, NodePatV, PatternV, SetV, SortV};
use crate::backend::StorageBackend;
use crate::deletes::{self, DoomedV};
use crate::error::ErrV;
use crate::executor;
use crate::graph::{self, Graph};
use crate::load;
use crate::merges::{self, CandV};
use crate::outside::Outside;
use crate::plan::{self, PlanV};
use crate::rows::{self, TableV};
use crate::semantics::{self, EnvV};
use crate::steady;
use crate::store::{self, StoreV};
use crate::value::{PropsV, RecV, ValV};
use crate::writes;
use vstd::prelude::*;

verus! {

// ---------------------------------------------------------------------------
// No call of `rand`
// ---------------------------------------------------------------------------

pub open spec fn steady_maybe(o: Option<ExprV>) -> bool {
    o matches Some(e) ==> steady::steady(e)
}

pub open spec fn steady_inline(props: Seq<(Seq<char>, ExprV)>) -> bool {
    forall|i: int| 0 <= i < props.len() ==> steady::steady((#[trigger] props[i]).1)
}

pub open spec fn steady_items(items: Seq<ItemV>) -> bool {
    forall|i: int| 0 <= i < items.len() ==> steady::steady((#[trigger] items[i]).expression)
}

pub open spec fn steady_sorts(items: Seq<SortV>) -> bool {
    forall|i: int| 0 <= i < items.len() ==> steady::steady((#[trigger] items[i]).expression)
}

pub open spec fn steady_set(item: SetV) -> bool {
    match item {
        SetV::Property { expression, .. } => steady::steady(expression),
        SetV::AllProperties { expression, .. } => steady::steady(expression),
        SetV::MergeProperties { expression, .. } => steady::steady(expression),
        SetV::Label { .. } => true,
    }
}

pub open spec fn steady_sets(items: Seq<SetV>) -> bool {
    forall|i: int| 0 <= i < items.len() ==> steady_set(#[trigger] items[i])
}

pub open spec fn steady_opt_sets(o: Option<Seq<SetV>>) -> bool {
    o matches Some(items) ==> steady_sets(items)
}

/// The last step of a plan holds no call of `rand`.
pub open spec fn steady_own(p: PlanV) -> bool {
    match p {
        PlanV::CreateNode { pattern, .. } => steady::steady_props(pattern.properties),
        PlanV::CreatePath { start, elements, .. } => steady::steady_props(start.properties)
            && steady::steady_chain(elements),
        PlanV::ScanNodes { inline_props, .. } => steady_inline(inline_props),
        PlanV::Filter { predicate, .. } => steady::steady(predicate),
        PlanV::Return { items, .. } => steady_items(items),
        PlanV::Sort { items, .. } => steady_sorts(items),
        PlanV::Skip { count, .. } => steady::steady(count),
        PlanV::Limit { count, .. } => steady::steady(count),
        PlanV::With { items, where_predicate, .. } => steady_items(items) && steady_maybe(
            where_predicate,
        ),
        PlanV::Unwind { expression, .. } => steady::steady(expression),
        PlanV::SetOp { items, .. } => steady_sets(items),
        PlanV::DeleteOp { expressions, .. } => steady::all_steady(expressions),
        PlanV::MergeOp { pattern, on_create, on_match, .. } => steady::steady_pattern(pattern)
            && steady_opt_sets(on_create) && steady_opt_sets(on_match),
        PlanV::LoadCsv { url, field_terminator, .. } => steady::steady(url) && steady_maybe(
            field_terminator,
        ),
        _ => true,
    }
}

/// A plan holds no call of `rand`.
pub open spec fn steady_plan(p: PlanV) -> bool
    decreases plan::plan_size(p),
{
    proof {
        plan::lemma_plan_size(p);
    }
    &&& steady_own(p)
    &&& (plan::input_of(p) matches Some(q) ==> steady_plan(*q))
    &&& (plan::second_of(p) matches Some(q) ==> steady_plan(*q))
}

// ---------------------------------------------------------------------------
// Rows
// ---------------------------------------------------------------------------

proof fn lemma_constant_props(
    props: Seq<(Seq<char>, ExprV)>,
    i: int,
    acc: PropsV,
    a: EnvV,
    b: EnvV,
    st: StoreV,
)
    requires
        steady::same_but_seed(a, b),
        steady_inline(props),
    ensures
        rows::constant_props(props, i, acc, a, st) == rows::constant_props(props, i, acc, b, st),
    decreases props.len() - i,
{
    if 0 <= i < props.len() {
        let none: RecV = seq![];
        steady::lemma_eval(props[i].1, none, a.at(i), b.at(i), st);
        match semantics::eval(props[i].1, none, a.at(i), st) {
            Ok(v) => match rows::as_property(v) {
                Some(p) => {
                    let more = assoc::bind(acc, props[i].0, p);
                    lemma_constant_props(props, i + 1, more, a, b, st);
                },
                None => {},
            },
            _ => {},
        }
    }
}

proof fn lemma_filter(
    rows: Seq<RecV>,
    i: int,
    acc: Seq<RecV>,
    e: ExprV,
    a: EnvV,
    b: EnvV,
    st: StoreV,
)
    requires
        steady::same_but_seed(a, b),
        steady::steady(e),
    ensures
        rows::filter_rows(rows, i, acc, e, a, st) == rows::filter_rows(rows, i, acc, e, b, st),
    decreases rows.len() - i,
{
    if 0 <= i < rows.len() {
        steady::lemma_eval(e, rows[i], a.at(i), b.at(i), st);
        lemma_filter(rows, i + 1, acc.push(rows[i]), e, a, b, st);
        lemma_filter(rows, i + 1, acc, e, a, b, st);
    }
}

proof fn lemma_project_row(
    items: Seq<ItemV>,
    cols: Seq<Seq<char>>,
    i: int,
    acc: RecV,
    rec: RecV,
    a: EnvV,
    b: EnvV,
    st: StoreV,
)
    requires
        steady::same_but_seed(a, b),
        steady_items(items),
    ensures
        rows::project_row(
            items,
            cols,
            i,
            acc,
            rec,
            a,
            st,
        ) == rows::project_row(
            items,
            cols,
            i,
            acc,
            rec,
            b,
            st,
        ),
    decreases items.len() - i,
{
    if 0 <= i < items.len() {
        let e = items[i].expression;
        steady::lemma_eval(e, rec, a.at(i), b.at(i), st);
        match semantics::eval(e, rec, a.at(i), st) {
            Ok(v) => {
                let more = assoc::bind(acc, cols[i], v);
                lemma_project_row(items, cols, i + 1, more, rec, a, b, st);
            },
            _ => {},
        }
    }
}

proof fn lemma_project_rows(
    items: Seq<ItemV>,
    cols: Seq<Seq<char>>,
    rows: Seq<RecV>,
    i: int,
    acc: Seq<RecV>,
    a: EnvV,
    b: EnvV,
    st: StoreV,
)
    requires
        steady::same_but_seed(a, b),
        steady_items(items),
    ensures
        rows::project_rows(
            items,
            cols,
            rows,
            i,
            acc,
            a,
            st,
        ) == rows::project_rows(
            items,
            cols,
            rows,
            i,
            acc,
            b,
            st,
        ),
    decreases rows.len() - i,
{
    if 0 <= i < rows.len() {
        lemma_project_row(items, cols, 0, seq![], rows[i], a.at(i), b.at(i), st);
        match rows::project_row(items, cols, 0, seq![], rows[i], a.at(i), st) {
            Ok(r) => {
                lemma_project_rows(items, cols, rows, i + 1, acc.push(r), a, b, st);
            },
            _ => {},
        }
    }
}

proof fn lemma_group_key(
    items: Seq<ItemV>,
    i: int,
    acc: Seq<ValV>,
    rec: RecV,
    a: EnvV,
    b: EnvV,
    st: StoreV,
)
    requires
        steady::same_but_seed(a, b),
        steady_items(items),
    ensures
        aggregate::group_key(
            items,
            i,
            acc,
            rec,
            a,
            st,
        ) == aggregate::group_key(
            items,
            i,
            acc,
            rec,
            b,
            st,
        ),
    decreases items.len() - i,
{
    if 0 <= i < items.len() {
        let e = items[i].expression;
        steady::lemma_eval(e, rec, a.at(i), b.at(i), st);
        lemma_group_key(items, i + 1, acc, rec, a, b, st);
        match semantics::eval(e, rec, a.at(i), st) {
            Ok(v) => {
                lemma_group_key(items, i + 1, acc.push(v), rec, a, b, st);
            },
            _ => {},
        }
    }
}

proof fn lemma_grouped(
    items: Seq<ItemV>,
    rows: Seq<RecV>,
    i: int,
    groups: Seq<GroupV>,
    a: EnvV,
    b: EnvV,
    st: StoreV,
)
    requires
        steady::same_but_seed(a, b),
        steady_items(items),
    ensures
        aggregate::grouped(
            items,
            rows,
            i,
            groups,
            a,
            st,
        ) == aggregate::grouped(
            items,
            rows,
            i,
            groups,
            b,
            st,
        ),
    decreases rows.len() - i,
{
    if 0 <= i < rows.len() {
        lemma_group_key(items, 0, seq![], rows[i], a.at(i), b.at(i), st);
        match aggregate::group_key(items, 0, seq![], rows[i], a.at(i), st) {
            Ok(values) => {
                let more = aggregate::with_row(groups, values, rows[i]);
                lemma_grouped(items, rows, i + 1, more, a, b, st);
            },
            _ => {},
        }
    }
}

proof fn lemma_aggregate_columns(
    items: Seq<ItemV>,
    cols: Seq<Seq<char>>,
    i: int,
    rows: Seq<RecV>,
    acc: RecV,
    a: EnvV,
    b: EnvV,
    st: StoreV,
)
    requires
        steady::same_but_seed(a, b),
        steady_items(items),
    ensures
        aggregate::aggregate_columns(
            items,
            cols,
            i,
            rows,
            acc,
            a,
            st,
        ) == aggregate::aggregate_columns(
            items,
            cols,
            i,
            rows,
            acc,
            b,
            st,
        ),
    decreases items.len() - i,
{
    if 0 <= i < items.len() {
        let e = items[i].expression;
        let first = if rows.len() > 0 {
            rows[0]
        } else {
            seq![]
        };
        steady::lemma_eval(e, first, a.at(i).over(rows), b.at(i).over(rows), st);
        lemma_aggregate_columns(items, cols, i + 1, rows, acc, a, b, st);
        match aggregate::aggregate(e, rows, a.at(i), st) {
            Ok(v) => {
                let more = assoc::bind(acc, cols[i], v);
                lemma_aggregate_columns(items, cols, i + 1, rows, more, a, b, st);
            },
            _ => {},
        }
    }
}

proof fn lemma_group_rows(
    items: Seq<ItemV>,
    cols: Seq<Seq<char>>,
    groups: Seq<GroupV>,
    g: int,
    acc: Seq<RecV>,
    a: EnvV,
    b: EnvV,
    st: StoreV,
)
    requires
        steady::same_but_seed(a, b),
        steady_items(items),
    ensures
        aggregate::group_rows(
            items,
            cols,
            groups,
            g,
            acc,
            a,
            st,
        ) == aggregate::group_rows(
            items,
            cols,
            groups,
            g,
            acc,
            b,
            st,
        ),
    decreases groups.len() - g,
{
    if 0 <= g < groups.len() {
        let own = groups[g].rows;
        let keys = aggregate::key_columns(items, cols, 0, groups[g].values, 0, seq![]);
        lemma_aggregate_columns(items, cols, 0, own, keys, a.at(g), b.at(g), st);
        match aggregate::aggregate_columns(items, cols, 0, own, keys, a.at(g), st) {
            Ok(rec) => {
                lemma_group_rows(items, cols, groups, g + 1, acc.push(rec), a, b, st);
            },
            _ => {},
        }
    }
}

proof fn lemma_projected(
    items: Seq<ItemV>,
    distinct: bool,
    rows: Seq<RecV>,
    a: EnvV,
    b: EnvV,
    st: StoreV,
)
    requires
        steady::same_but_seed(a, b),
        steady_items(items),
    ensures
        rows::projected(
            items,
            distinct,
            rows,
            a,
            st,
        ) == rows::projected(
            items,
            distinct,
            rows,
            b,
            st,
        ),
{
    let cols = rows::columns(items);
    if aggregate::some_aggregate(items, 0) {
        lemma_grouped(items, rows, 0, seq![], a.at(0), b.at(0), st);
        match aggregate::groups_of(items, rows, a.at(0), st) {
            Ok(groups) => {
                lemma_group_rows(items, cols, groups, 0, seq![], a.at(1), b.at(1), st);
            },
            _ => {},
        }
    } else {
        lemma_project_rows(items, cols, rows, 0, seq![], a, b, st);
    }
}

proof fn lemma_sort_key(
    items: Seq<SortV>,
    i: int,
    acc: Seq<ValV>,
    rec: RecV,
    a: EnvV,
    b: EnvV,
    st: StoreV,
)
    requires
        steady::same_but_seed(a, b),
        steady_sorts(items),
    ensures
        rows::sort_key(items, i, acc, rec, a, st) == rows::sort_key(items, i, acc, rec, b, st),
    decreases items.len() - i,
{
    if 0 <= i < items.len() {
        let e = items[i].expression;
        steady::lemma_eval(e, rec, a.at(i), b.at(i), st);
        match semantics::eval(e, rec, a.at(i), st) {
            Ok(v) => {
                lemma_sort_key(items, i + 1, acc.push(v), rec, a, b, st);
            },
            _ => {},
        }
    }
}

proof fn lemma_with_keys(
    items: Seq<SortV>,
    rows: Seq<RecV>,
    i: int,
    acc: Seq<(Seq<ValV>, RecV)>,
    a: EnvV,
    b: EnvV,
    st: StoreV,
)
    requires
        steady::same_but_seed(a, b),
        steady_sorts(items),
    ensures
        rows::with_keys(items, rows, i, acc, a, st) == rows::with_keys(items, rows, i, acc, b, st),
    decreases rows.len() - i,
{
    if 0 <= i < rows.len() {
        lemma_sort_key(items, 0, seq![], rows[i], a.at(i), b.at(i), st);
        match rows::sort_key(items, 0, seq![], rows[i], a.at(i), st) {
            Ok(k) => {
                lemma_with_keys(items, rows, i + 1, acc.push((k, rows[i])), a, b, st);
            },
            _ => {},
        }
    }
}

proof fn lemma_unwind(
    rows: Seq<RecV>,
    i: int,
    acc: Seq<RecV>,
    e: ExprV,
    alias: Seq<char>,
    a: EnvV,
    b: EnvV,
    st: StoreV,
)
    requires
        steady::same_but_seed(a, b),
        steady::steady(e),
    ensures
        rows::unwind_rows(
            rows,
            i,
            acc,
            e,
            alias,
            a,
            st,
        ) == rows::unwind_rows(
            rows,
            i,
            acc,
            e,
            alias,
            b,
            st,
        ),
    decreases rows.len() - i,
{
    if 0 <= i < rows.len() {
        steady::lemma_eval(e, rows[i], a.at(i), b.at(i), st);
        match semantics::eval(e, rows[i], a.at(i), st) {
            Ok(v) => {
                if let Ok(more) = rows::unwound(rows[i], alias, v) {
                    lemma_unwind(rows, i + 1, acc + more, e, alias, a, b, st);
                }
            },
            _ => {},
        }
    }
}

proof fn lemma_load_row(
    rec: RecV,
    url: ExprV,
    alias: Seq<char>,
    with_headers: bool,
    field_terminator: Option<ExprV>,
    a: EnvV,
    b: EnvV,
    st: StoreV,
)
    requires
        steady::same_but_seed(a, b),
        steady::steady(url),
        steady_maybe(field_terminator),
    ensures
        load::load_row(
            rec,
            url,
            alias,
            with_headers,
            field_terminator,
            a,
            st,
        ) == load::load_row(
            rec,
            url,
            alias,
            with_headers,
            field_terminator,
            b,
            st,
        ),
{
    steady::lemma_eval(url, rec, a.at(0), b.at(0), st);
    if let Some(e) = field_terminator {
        steady::lemma_eval(e, rec, a.at(1), b.at(1), st);
    }
}

proof fn lemma_load_rows(
    rows: Seq<RecV>,
    i: int,
    acc: Seq<RecV>,
    url: ExprV,
    alias: Seq<char>,
    with_headers: bool,
    ft: Option<ExprV>,
    a: EnvV,
    b: EnvV,
    st: StoreV,
)
    requires
        steady::same_but_seed(a, b),
        steady::steady(url),
        steady_maybe(ft),
    ensures
        load::load_rows(
            rows,
            i,
            acc,
            url,
            alias,
            with_headers,
            ft,
            a,
            st,
        ) == load::load_rows(
            rows,
            i,
            acc,
            url,
            alias,
            with_headers,
            ft,
            b,
            st,
        ),
    decreases rows.len() - i,
{
    if 0 <= i < rows.len() {
        lemma_load_row(rows[i], url, alias, with_headers, ft, a.at(i), b.at(i), st);
        match load::load_row(rows[i], url, alias, with_headers, ft, a.at(i), st) {
            Ok(more) => {
                lemma_load_rows(rows, i + 1, acc + more, url, alias, with_headers, ft, a, b, st);
            },
            _ => {},
        }
    }
}

// ---------------------------------------------------------------------------
// Changes
// ---------------------------------------------------------------------------

proof fn lemma_pattern_props(
    entries: Seq<(KeyV, ExprV)>,
    i: int,
    acc: PropsV,
    rec: RecV,
    a: EnvV,
    b: EnvV,
    st: StoreV,
)
    requires
        steady::same_but_seed(a, b),
        steady::steady_entries(entries),
    ensures
        writes::pattern_props(
            entries,
            i,
            acc,
            rec,
            a,
            st,
        ) == writes::pattern_props(
            entries,
            i,
            acc,
            rec,
            b,
            st,
        ),
    decreases entries.len() - i,
{
    if 0 <= i < entries.len() {
        steady::lemma_eval(entries[i].1, rec, a.at(i), b.at(i), st);
        match entries[i].0 {
            KeyV::Expression(_) => {
                lemma_pattern_props(entries, i + 1, acc, rec, a, b, st);
            },
            KeyV::Identifier(k) => match semantics::eval(entries[i].1, rec, a.at(i), st) {
                Ok(v) => {
                    if let Ok(p) = writes::property_from(v) {
                        let more = assoc::bind(acc, k, p);
                        lemma_pattern_props(entries, i + 1, more, rec, a, b, st);
                    }
                },
                _ => {},
            },
        }
    }
}

proof fn lemma_resolved(props: Option<Seq<(KeyV, ExprV)>>, rec: RecV, a: EnvV, b: EnvV, st: StoreV)
    requires
        steady::same_but_seed(a, b),
        steady::steady_props(props),
    ensures
        writes::resolved(props, rec, a, st) == writes::resolved(props, rec, b, st),
{
    if let Some(entries) = props {
        lemma_pattern_props(entries, 0, seq![], rec, a, b, st);
    }
}

proof fn lemma_create_node_rows(rows: Seq<RecV>, i: int, np: NodePatV, a: EnvV, b: EnvV, st: StoreV)
    requires
        steady::same_but_seed(a, b),
        steady::steady_props(np.properties),
    ensures
        writes::create_node_rows(
            rows,
            i,
            np,
            a,
            st,
        ) == writes::create_node_rows(
            rows,
            i,
            np,
            b,
            st,
        ),
    decreases rows.len() - i,
{
    if 0 <= i < rows.len() {
        lemma_resolved(np.properties, rows[i], a.at(i), b.at(i), st);
        match writes::create_node_row(rows[i], np, a.at(i), st) {
            (Ok(r), after) => {
                lemma_create_node_rows(rows.update(i, r), i + 1, np, a, b, after);
            },
            _ => {},
        }
    }
}

proof fn lemma_node_for(rec: RecV, np: NodePatV, a: EnvV, b: EnvV, st: StoreV)
    requires
        steady::same_but_seed(a, b),
        steady::steady_props(np.properties),
    ensures
        writes::node_for(rec, np, a, st) == writes::node_for(rec, np, b, st),
{
    lemma_resolved(np.properties, rec, a, b, st);
}

proof fn lemma_create_step(
    rec: RecV,
    prev: u64,
    step: ChainV,
    given: RecV,
    a: EnvV,
    b: EnvV,
    st: StoreV,
)
    requires
        steady::same_but_seed(a, b),
        steady::steady_step(step),
    ensures
        writes::create_step(
            rec,
            prev,
            step,
            given,
            a,
            st,
        ) == writes::create_step(
            rec,
            prev,
            step,
            given,
            b,
            st,
        ),
{
    lemma_node_for(rec, step.node, a.at(0), b.at(0), st);
    match writes::node_for(rec, step.node, a.at(0), st) {
        (Ok((rec1, _)), st1) => {
            lemma_resolved(step.relationship.properties, rec1, a.at(1), b.at(1), st1);
        },
        _ => {},
    }
}

proof fn lemma_create_steps(
    rec: RecV,
    prev: u64,
    chain: Seq<ChainV>,
    i: int,
    given: RecV,
    a: EnvV,
    b: EnvV,
    st: StoreV,
)
    requires
        steady::same_but_seed(a, b),
        steady::steady_chain(chain),
    ensures
        writes::create_steps(
            rec,
            prev,
            chain,
            i,
            given,
            a,
            st,
        ) == writes::create_steps(
            rec,
            prev,
            chain,
            i,
            given,
            b,
            st,
        ),
    decreases chain.len() - i,
{
    if 0 <= i < chain.len() {
        lemma_create_step(rec, prev, chain[i], given, a.at(i), b.at(i), st);
        match writes::create_step(rec, prev, chain[i], given, a.at(i), st) {
            (Ok((rec1, dst)), after) => {
                lemma_create_steps(rec1, dst, chain, i + 1, given, a, b, after);
            },
            _ => {},
        }
    }
}

proof fn lemma_create_path_row(
    rec: RecV,
    start: NodePatV,
    chain: Seq<ChainV>,
    given: RecV,
    a: EnvV,
    b: EnvV,
    st: StoreV,
)
    requires
        steady::same_but_seed(a, b),
        steady::steady_props(start.properties),
        steady::steady_chain(chain),
    ensures
        writes::create_path_row(
            rec,
            start,
            chain,
            given,
            a,
            st,
        ) == writes::create_path_row(
            rec,
            start,
            chain,
            given,
            b,
            st,
        ),
{
    lemma_node_for(rec, start, a.at(0), b.at(0), st);
    match writes::node_for(rec, start, a.at(0), st) {
        (Ok((rec1, id)), st1) => {
            lemma_create_steps(rec1, id, chain, 0, given, a.at(1), b.at(1), st1);
        },
        _ => {},
    }
}

proof fn lemma_create_path_rows(
    rows: Seq<RecV>,
    i: int,
    start: NodePatV,
    chain: Seq<ChainV>,
    a: EnvV,
    b: EnvV,
    st: StoreV,
)
    requires
        steady::same_but_seed(a, b),
        steady::steady_props(start.properties),
        steady::steady_chain(chain),
    ensures
        writes::create_path_rows(
            rows,
            i,
            start,
            chain,
            a,
            st,
        ) == writes::create_path_rows(
            rows,
            i,
            start,
            chain,
            b,
            st,
        ),
    decreases rows.len() - i,
{
    if 0 <= i < rows.len() {
        lemma_create_path_row(rows[i], start, chain, seq![], a.at(i), b.at(i), st);
        match writes::create_path_row(rows[i], start, chain, seq![], a.at(i), st) {
            (Ok(r), after) => {
                lemma_create_path_rows(rows.update(i, r), i + 1, start, chain, a, b, after);
            },
            _ => {},
        }
    }
}

proof fn lemma_set_item(item: SetV, rec: RecV, a: EnvV, b: EnvV, st: StoreV)
    requires
        steady::same_but_seed(a, b),
        steady_set(item),
    ensures
        writes::set_item(item, rec, a, st) == writes::set_item(item, rec, b, st),
{
    match item {
        SetV::Property { expression, .. } => {
            steady::lemma_eval(expression, rec, a, b, st);
        },
        SetV::AllProperties { expression, .. } => {
            steady::lemma_eval(expression, rec, a, b, st);
        },
        SetV::MergeProperties { expression, .. } => {
            steady::lemma_eval(expression, rec, a, b, st);
        },
        SetV::Label { .. } => {},
    }
}

proof fn lemma_set_items(items: Seq<SetV>, i: int, rec: RecV, a: EnvV, b: EnvV, st: StoreV)
    requires
        steady::same_but_seed(a, b),
        steady_sets(items),
    ensures
        writes::set_items(items, i, rec, a, st) == writes::set_items(items, i, rec, b, st),
    decreases items.len() - i,
{
    if 0 <= i < items.len() {
        lemma_set_item(items[i], rec, a.at(i), b.at(i), st);
        match writes::set_item(items[i], rec, a.at(i), st) {
            (Ok(r), after) => {
                lemma_set_items(items, i + 1, r, a, b, after);
            },
            _ => {},
        }
    }
}

proof fn lemma_set_rows(rows: Seq<RecV>, i: int, items: Seq<SetV>, a: EnvV, b: EnvV, st: StoreV)
    requires
        steady::same_but_seed(a, b),
        steady_sets(items),
    ensures
        writes::set_rows(rows, i, items, a, st) == writes::set_rows(rows, i, items, b, st),
    decreases rows.len() - i,
{
    if 0 <= i < rows.len() {
        lemma_set_items(items, 0, rows[i], a.at(i), b.at(i), st);
        match writes::set_items(items, 0, rows[i], a.at(i), st) {
            (Ok(r), after) => {
                lemma_set_rows(rows.update(i, r), i + 1, items, a, b, after);
            },
            _ => {},
        }
    }
}

proof fn lemma_doomed_in(
    exprs: Seq<ExprV>,
    i: int,
    rec: RecV,
    d: DoomedV,
    a: EnvV,
    b: EnvV,
    st: StoreV,
)
    requires
        steady::same_but_seed(a, b),
        steady::all_steady(exprs),
    ensures
        deletes::doomed_in(exprs, i, rec, d, a, st) == deletes::doomed_in(exprs, i, rec, d, b, st),
    decreases exprs.len() - i,
{
    if 0 <= i < exprs.len() {
        steady::lemma_eval(exprs[i], rec, a.at(i), b.at(i), st);
        match semantics::eval(exprs[i], rec, a.at(i), st) {
            Ok(v) => {
                lemma_doomed_in(exprs, i + 1, rec, deletes::with_doomed(d, v), a, b, st);
            },
            _ => {},
        }
    }
}

proof fn lemma_doomed(
    rows: Seq<RecV>,
    i: int,
    exprs: Seq<ExprV>,
    d: DoomedV,
    a: EnvV,
    b: EnvV,
    st: StoreV,
)
    requires
        steady::same_but_seed(a, b),
        steady::all_steady(exprs),
    ensures
        deletes::doomed(rows, i, exprs, d, a, st) == deletes::doomed(rows, i, exprs, d, b, st),
    decreases rows.len() - i,
{
    if 0 <= i < rows.len() {
        lemma_doomed_in(exprs, 0, rows[i], d, a.at(i), b.at(i), st);
        match deletes::doomed_in(exprs, 0, rows[i], d, a.at(i), st) {
            Ok(e) => {
                lemma_doomed(rows, i + 1, exprs, e, a, b, st);
            },
            _ => {},
        }
    }
}

// ---------------------------------------------------------------------------
// MERGE
// ---------------------------------------------------------------------------

proof fn lemma_set_opt(items: Option<Seq<SetV>>, rec: RecV, a: EnvV, b: EnvV, st: StoreV)
    requires
        steady::same_but_seed(a, b),
        steady_opt_sets(items),
    ensures
        merges::set_opt(items, rec, a, st) == merges::set_opt(items, rec, b, st),
{
    if let Some(s) = items {
        lemma_set_items(s, 0, rec, a, b, st);
    }
}

proof fn lemma_matched_rows(
    rec: RecV,
    v: Seq<char>,
    ids: Seq<u64>,
    i: int,
    acc: Seq<RecV>,
    on_match: Option<Seq<SetV>>,
    a: EnvV,
    b: EnvV,
    st: StoreV,
)
    requires
        steady::same_but_seed(a, b),
        steady_opt_sets(on_match),
    ensures
        merges::matched_rows(
            rec,
            v,
            ids,
            i,
            acc,
            on_match,
            a,
            st,
        ) == merges::matched_rows(
            rec,
            v,
            ids,
            i,
            acc,
            on_match,
            b,
            st,
        ),
    decreases ids.len() - i,
{
    if 0 <= i < ids.len() {
        let row = writes::with_node(rec, v, ids[i], st);
        lemma_set_opt(on_match, row, a.at(i), b.at(i), st);
        match merges::set_opt(on_match, row, a.at(i), st) {
            (Ok(r), after) => {
                lemma_matched_rows(rec, v, ids, i + 1, acc.push(r), on_match, a, b, after);
            },
            _ => {},
        }
    }
}

proof fn lemma_merge_node_row(
    rec: RecV,
    np: NodePatV,
    v: Seq<char>,
    acc: Seq<RecV>,
    on_create: Option<Seq<SetV>>,
    on_match: Option<Seq<SetV>>,
    a: EnvV,
    b: EnvV,
    st: StoreV,
)
    requires
        steady::same_but_seed(a, b),
        steady::steady_props(np.properties),
        steady_opt_sets(on_create),
        steady_opt_sets(on_match),
    ensures
        merges::merge_node_row(
            rec,
            np,
            v,
            acc,
            on_create,
            on_match,
            a,
            st,
        ) == merges::merge_node_row(
            rec,
            np,
            v,
            acc,
            on_create,
            on_match,
            b,
            st,
        ),
{
    lemma_resolved(np.properties, rec, a.at(0), b.at(0), st);
    match writes::resolved(np.properties, rec, a.at(0), st) {
        Ok(props) => {
            let ids = store::found(st, np.labels, props);
            lemma_matched_rows(rec, v, ids, 0, acc, on_match, a.at(1), b.at(1), st);
            let created = store::node_created(st, np.labels, props);
            let row = writes::with_node(rec, v, st.nodes.len() as u64, created);
            lemma_set_opt(on_create, row, a.at(1), b.at(1), created);
        },
        _ => {},
    }
}

proof fn lemma_merge_node_rows(
    rows: Seq<RecV>,
    i: int,
    np: NodePatV,
    v: Seq<char>,
    acc: Seq<RecV>,
    on_create: Option<Seq<SetV>>,
    on_match: Option<Seq<SetV>>,
    a: EnvV,
    b: EnvV,
    st: StoreV,
)
    requires
        steady::same_but_seed(a, b),
        steady::steady_props(np.properties),
        steady_opt_sets(on_create),
        steady_opt_sets(on_match),
    ensures
        merges::merge_node_rows(
            rows,
            i,
            np,
            v,
            acc,
            on_create,
            on_match,
            a,
            st,
        ) == merges::merge_node_rows(
            rows,
            i,
            np,
            v,
            acc,
            on_create,
            on_match,
            b,
            st,
        ),
    decreases rows.len() - i,
{
    if 0 <= i < rows.len() {
        lemma_merge_node_row(rows[i], np, v, acc, on_create, on_match, a.at(i), b.at(i), st);
        match merges::merge_node_row(rows[i], np, v, acc, on_create, on_match, a.at(i), st) {
            (Ok(r), after) => {
                lemma_merge_node_rows(rows, i + 1, np, v, r, on_create, on_match, a, b, after);
            },
            _ => {},
        }
    }
}

proof fn lemma_seeds(rec: RecV, start: NodePatV, a: EnvV, b: EnvV, st: StoreV)
    requires
        steady::same_but_seed(a, b),
        steady::steady_props(start.properties),
    ensures
        merges::seeds(rec, start, a, st) == merges::seeds(rec, start, b, st),
{
    lemma_resolved(start.properties, rec, a, b, st);
}

proof fn lemma_cands(
    cands: Seq<CandV>,
    i: int,
    step: ChainV,
    acc: Seq<CandV>,
    a: EnvV,
    b: EnvV,
    st: StoreV,
)
    requires
        steady::same_but_seed(a, b),
        steady::steady_step(step),
    ensures
        merges::cands_continued(
            cands,
            i,
            step,
            acc,
            a,
            st,
        ) == merges::cands_continued(
            cands,
            i,
            step,
            acc,
            b,
            st,
        ),
    decreases cands.len() - i,
{
    if 0 <= i < cands.len() {
        let rec = cands[i].0;
        lemma_resolved(step.relationship.properties, rec, a.at(i).at(0), b.at(i).at(0), st);
        lemma_resolved(step.node.properties, rec, a.at(i).at(1), b.at(i).at(1), st);
        match merges::cand_continued(cands[i], step, acc, a.at(i), st) {
            Ok(more) => {
                lemma_cands(cands, i + 1, step, more, a, b, st);
            },
            _ => {},
        }
    }
}

proof fn lemma_walks(cands: Seq<CandV>, chain: Seq<ChainV>, i: int, a: EnvV, b: EnvV, st: StoreV)
    requires
        steady::same_but_seed(a, b),
        steady::steady_chain(chain),
    ensures
        merges::walks(cands, chain, i, a, st) == merges::walks(cands, chain, i, b, st),
    decreases chain.len() - i,
{
    if 0 <= i < chain.len() {
        lemma_cands(cands, 0, chain[i], seq![], a.at(i), b.at(i), st);
        match merges::cands_continued(cands, 0, chain[i], seq![], a.at(i), st) {
            Ok(next) => {
                lemma_walks(next, chain, i + 1, a, b, st);
            },
            _ => {},
        }
    }
}

proof fn lemma_walk_rows(
    cands: Seq<CandV>,
    i: int,
    acc: Seq<RecV>,
    on_match: Option<Seq<SetV>>,
    a: EnvV,
    b: EnvV,
    st: StoreV,
)
    requires
        steady::same_but_seed(a, b),
        steady_opt_sets(on_match),
    ensures
        merges::walk_rows(
            cands,
            i,
            acc,
            on_match,
            a,
            st,
        ) == merges::walk_rows(
            cands,
            i,
            acc,
            on_match,
            b,
            st,
        ),
    decreases cands.len() - i,
{
    if 0 <= i < cands.len() {
        lemma_set_opt(on_match, cands[i].0, a.at(i), b.at(i), st);
        match merges::set_opt(on_match, cands[i].0, a.at(i), st) {
            (Ok(r), after) => {
                lemma_walk_rows(cands, i + 1, acc.push(r), on_match, a, b, after);
            },
            _ => {},
        }
    }
}

proof fn lemma_merge_chain_row(
    rec: RecV,
    start: NodePatV,
    chain: Seq<ChainV>,
    acc: Seq<RecV>,
    on_create: Option<Seq<SetV>>,
    on_match: Option<Seq<SetV>>,
    a: EnvV,
    b: EnvV,
    st: StoreV,
)
    requires
        steady::same_but_seed(a, b),
        steady::steady_props(start.properties),
        steady::steady_chain(chain),
        steady_opt_sets(on_create),
        steady_opt_sets(on_match),
    ensures
        merges::merge_chain_row(
            rec,
            start,
            chain,
            acc,
            on_create,
            on_match,
            a,
            st,
        ) == merges::merge_chain_row(
            rec,
            start,
            chain,
            acc,
            on_create,
            on_match,
            b,
            st,
        ),
{
    lemma_seeds(rec, start, a.at(0), b.at(0), st);
    match merges::seeds(rec, start, a.at(0), st) {
        Ok(first) => {
            lemma_walks(first, chain, 0, a.at(1), b.at(1), st);
            match merges::walks(first, chain, 0, a.at(1), st) {
                Ok(cands) => {
                    lemma_walk_rows(cands, 0, acc, on_match, a.at(2), b.at(2), st);
                    lemma_create_path_row(rec, start, chain, rec, a.at(3), b.at(3), st);
                    match writes::create_path_row(rec, start, chain, rec, a.at(3), st) {
                        (Ok(r), st1) => {
                            lemma_set_opt(on_create, r, a.at(4), b.at(4), st1);
                        },
                        _ => {},
                    }
                },
                _ => {},
            }
        },
        _ => {},
    }
}

proof fn lemma_merge_chain_rows(
    rows: Seq<RecV>,
    i: int,
    start: NodePatV,
    chain: Seq<ChainV>,
    acc: Seq<RecV>,
    on_create: Option<Seq<SetV>>,
    on_match: Option<Seq<SetV>>,
    a: EnvV,
    b: EnvV,
    st: StoreV,
)
    requires
        steady::same_but_seed(a, b),
        steady::steady_props(start.properties),
        steady::steady_chain(chain),
        steady_opt_sets(on_create),
        steady_opt_sets(on_match),
    ensures
        merges::merge_chain_rows(
            rows,
            i,
            start,
            chain,
            acc,
            on_create,
            on_match,
            a,
            st,
        ) == merges::merge_chain_rows(
            rows,
            i,
            start,
            chain,
            acc,
            on_create,
            on_match,
            b,
            st,
        ),
    decreases rows.len() - i,
{
    if 0 <= i < rows.len() {
        let row = rows[i];
        lemma_merge_chain_row(
            row,
            start,
            chain,
            acc,
            on_create,
            on_match,
            a.at(i),
            b.at(i),
            st,
        );
        match merges::merge_chain_row(row, start, chain, acc, on_create, on_match, a.at(i), st) {
            (Ok(r), after) => {
                lemma_merge_chain_rows(
                    rows,
                    i + 1,
                    start,
                    chain,
                    r,
                    on_create,
                    on_match,
                    a,
                    b,
                    after,
                );
            },
            _ => {},
        }
    }
}

// ---------------------------------------------------------------------------
// Plans
// ---------------------------------------------------------------------------

proof fn lemma_source(p: PlanV, a: EnvV, b: EnvV, st: StoreV)
    requires
        steady::same_but_seed(a, b),
        steady_own(p),
    ensures
        executor::source(p, a, st) == executor::source(p, b, st),
{
    match p {
        PlanV::ScanNodes { inline_props, .. } => {
            lemma_constant_props(inline_props, 0, seq![], a, b, st);
        },
        _ => {},
    }
}

proof fn lemma_read_step(p: PlanV, t: TableV, a: EnvV, b: EnvV, st: StoreV)
    requires
        steady::same_but_seed(a, b),
        steady_own(p),
    ensures
        executor::read_step(p, t, a, st) == executor::read_step(p, t, b, st),
{
    match p {
        PlanV::Filter { predicate, .. } => {
            lemma_filter(t.rows, 0, seq![], predicate, a, b, st);
        },
        PlanV::Return { items, distinct, .. } => {
            let all = rows::effective_items(items, t.cols);
            assert(steady_items(all));
            lemma_projected(all, distinct, t.rows, a, b, st);
        },
        PlanV::Sort { items, .. } => {
            lemma_with_keys(items, t.rows, 0, seq![], a, b, st);
        },
        PlanV::Skip { count, .. } => {
            steady::lemma_eval(count, seq![], a, b, st);
        },
        PlanV::Limit { count, .. } => {
            steady::lemma_eval(count, seq![], a, b, st);
        },
        PlanV::With { items, distinct, where_predicate, .. } => {
            lemma_projected(items, distinct, t.rows, a.at(0), b.at(0), st);
            match (rows::projected(items, distinct, t.rows, a.at(0), st), where_predicate) {
                (Ok(out), Some(e)) => {
                    lemma_filter(out.rows, 0, seq![], e, a.at(1), b.at(1), st);
                },
                _ => {},
            }
        },
        PlanV::Unwind { expression, alias, .. } => {
            lemma_unwind(t.rows, 0, seq![], expression, alias, a, b, st);
        },
        PlanV::LoadCsv { url, alias, with_headers, field_terminator, .. } => {
            lemma_load_rows(
                t.rows,
                0,
                seq![],
                url,
                alias,
                with_headers,
                field_terminator,
                a,
                b,
                st,
            );
        },
        _ => {},
    }
}

proof fn lemma_step(p: PlanV, t: TableV, a: EnvV, b: EnvV, st: StoreV)
    requires
        steady::same_but_seed(a, b),
        steady_own(p),
    ensures
        executor::step(p, t, a, st) == executor::step(p, t, b, st),
{
    reveal(executor::step);
    let base = writes::base_rows(t.rows);
    match p {
        PlanV::CreateNode { pattern, .. } => {
            lemma_create_node_rows(base, 0, pattern, a, b, st);
        },
        PlanV::CreatePath { start, elements, .. } => {
            lemma_create_path_rows(base, 0, start, elements, a, b, st);
        },
        PlanV::SetOp { items, .. } => {
            lemma_set_rows(t.rows, 0, items, a, b, st);
        },
        PlanV::RemoveOp { .. } => {},
        PlanV::DeleteOp { expressions, .. } => {
            let none = DoomedV { nodes: seq![], edges: seq![] };
            lemma_doomed(t.rows, 0, expressions, none, a, b, st);
        },
        PlanV::MergeOp { pattern, on_create, on_match, .. } => match pattern {
            PatternV::Node(np) => {
                let v = merges::merge_variable(np.variable);
                lemma_merge_node_rows(base, 0, np, v, seq![], on_create, on_match, a, b, st);
            },
            PatternV::Chain { start, elements } => {
                lemma_merge_chain_rows(
                    base,
                    0,
                    start,
                    elements,
                    seq![],
                    on_create,
                    on_match,
                    a,
                    b,
                    st,
                );
            },
            _ => {},
        },
        _ => {
            lemma_read_step(p, t, a, b, st);
        },
    }
}

/// A plan without random numbers gives one table and leaves one graph, whatever
/// the state from which they are drawn.
pub proof fn lemma_run_steady(p: PlanV, a: EnvV, b: EnvV, st: StoreV)
    requires
        steady::same_but_seed(a, b),
        steady_plan(p),
    ensures
        executor::run(p, a, st) == executor::run(p, b, st),
    decreases plan::plan_size(p),
{
    plan::lemma_plan_size(p);
    match plan::input_of(p) {
        None => {
            lemma_source(p, a, b, st);
        },
        Some(q) => {
            lemma_run_steady(*q, a.at(0), b.at(0), st);
            match executor::run(*q, a.at(0), st) {
                (Ok(t), after) => match plan::second_of(p) {
                    None => {
                        lemma_step(p, t, a.at(1), b.at(1), after);
                    },
                    Some(q2) => {
                        lemma_run_steady(*q2, a.at(1), b.at(1), after);
                    },
                },
                _ => {},
            }
        },
    }
}

/// A query in which `rand` is not called gives the same result and leaves the
/// same graph, whatever random numbers were drawn before it. So of two graphs
/// that hold the same, one that has run the query before and one that has not
/// give the same.
pub proof fn lemma_query_steady(q: Seq<char>, a: EnvV, b: EnvV, st: StoreV)
    requires
        steady::same_but_seed(a, b),
        graph::planned(q) matches Ok(p) ==> steady_plan(p),
    ensures
        graph::queried(q, a, st) == graph::queried(q, b, st),
{
    if let Ok(p) = graph::planned(q) {
        lemma_run_steady(p, a, b, st);
    }
}

/// The plans that a graph keeps cannot be told from its answers: two graphs
/// that hold the same and have the same source of answers give the same result
/// for a query in which `rand` is not called and leave the same graph, whatever
/// queries each has run before. A query that cannot be planned fails and leaves
/// the graph as it is.
pub proof fn lemma_plans_unseen<S: StorageBackend, O: Outside>(
    g1: &Graph<S, O>,
    g2: &Graph<S, O>,
    q: Seq<char>,
    params: RecV,
)
    requires
        g1.store() == g2.store(),
        g1.answers() == g2.answers(),
        graph::planned(q) matches Ok(p) ==> steady_plan(p),
    ensures
        graph::queried(q, g1.env(params), g1.store()) == graph::queried(
            q,
            g2.env(params),
            g2.store(),
        ),
        graph::planned(q) is Err ==> graph::queried(q, g1.env(params), g1.store()).0 is Err
            && graph::queried(q, g1.env(params), g1.store()).1 == g1.store(),
{
    lemma_query_steady(q, g1.env(params), g2.env(params), g1.store());
}

/// A parameter that was not given is null.
pub proof fn lemma_missing_parameter(x: Seq<char>, rec: RecV, env: EnvV, st: StoreV)
    requires
        assoc::lookup(env.params, x) is None,
    ensures
        semantics::eval(ExprV::Parameter(x), rec, env, st) == Ok::<ValV, ErrV>(ValV::Null),
{
}

} // verus!
