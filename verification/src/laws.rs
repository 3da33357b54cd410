//! What every query keeps: identifiers, ends of relationships, and graphs that
//! are only read.
use crate::assoc;
use crate::ast::{
    ChainV, ClauseV, ExprV, KeyV, LitV, NodePatV, PartV, PatternV, ProjV, RelPatV, RemoveV, SetV,
    SortV, StmtV,
};
use crate::deletes;
use crate::display::{self, OutputMode};
use crate::error::ErrV;
use crate::executor;
use crate::graph;
use crate::identity;
use crate::index;
use crate::keying;
use crate::merges;
use crate::parser;
use crate::plan::{self, HopV, PlanV};
use crate::planner;
use crate::refusal;
use crate::rows::{self, TableV};
use crate::semantics::{self, EnvV};
use crate::store::{self, StoreV};
use crate::text;
use crate::value::{NodeV, PropV, PropsV, RecV};
use crate::writes::{self, Entity};
use vstd::prelude::*;

verus! {

// ---------------------------------------------------------------------------
// Identifiers
// ---------------------------------------------------------------------------

/// A graph that another one may turn into: no position is lost, what was
/// deleted stays deleted, so that no identifier is given twice, and a
/// relationship that stays keeps its type and its ends.
#[verifier::opaque]
pub open spec fn continues(a: StoreV, b: StoreV) -> bool {
    &&& a.nodes.len() <= b.nodes.len()
    &&& a.edges.len() <= b.edges.len()
    &&& forall|i: int|
        #![trigger b.nodes[i]]
        0 <= i < a.nodes.len() && a.nodes[i] is None ==> b.nodes[i] is None
    &&& forall|i: int|
        #![trigger b.edges[i]]
        0 <= i < a.edges.len() ==> match (a.edges[i], b.edges[i]) {
            (None, f) => f is None,
            (Some(e), Some(f)) => e.id == f.id && e.label == f.label && e.src == f.src && e.dst
                == f.dst,
            (Some(_), None) => true,
        }
}

/// A graph may stay as it is.
pub proof fn lemma_continues_same(a: StoreV)
    ensures
        continues(a, a),
{
    reveal(continues);
}

/// Changes may follow one another.
pub proof fn lemma_continues_on(a: StoreV, b: StoreV, c: StoreV)
    requires
        continues(a, b),
        continues(b, c),
    ensures
        continues(a, c),
{
    reveal(continues);
    assert forall|i: int|
        #![trigger c.nodes[i]]
        0 <= i < a.nodes.len() && a.nodes[i] is None implies c.nodes[i] is None by {
        assert(b.nodes[i] is None);
    }
    assert forall|i: int| #![trigger c.edges[i]] 0 <= i < a.edges.len() implies (match (
        a.edges[i],
        c.edges[i],
    ) {
        (None, f) => f is None,
        (Some(e), Some(f)) => e.id == f.id && e.label == f.label && e.src == f.src && e.dst
            == f.dst,
        (Some(_), None) => true,
    }) by {
        let x = b.edges[i];
    }
}

/// Where constraints are added, the graph stays as it is.
proof fn lemma_continues_constrained(a: StoreV, b: StoreV)
    requires
        a.nodes == b.nodes,
        a.edges == b.edges,
    ensures
        continues(a, b),
{
    reveal(continues);
}

proof fn lemma_continues_created(
    st: StoreV,
    labels: Seq<Seq<char>>,
    label: Seq<char>,
    src: u64,
    dst: u64,
    properties: PropsV,
)
    ensures
        continues(st, store::node_created(st, labels, properties)),
        continues(st, store::edge_created(st, label, src, dst, properties)),
{
    reveal(continues);
}

proof fn lemma_continues_changed(st: StoreV, id: u64, m: PropsV, ls: Seq<Seq<char>>)
    ensures
        continues(st, store::node_props_set(st, id, m)),
        continues(st, store::edge_props_set(st, id, m)),
        continues(st, store::node_labels_set(st, id, ls)),
{
    reveal(continues);
}

proof fn lemma_continues_deleted(st: StoreV, id: u64)
    ensures
        store::edge_at(st, id) is Some ==> continues(st, store::edge_deleted(st, id)),
        store::node_at(st, id) is Some ==> continues(st, store::node_deleted(st, id)),
{
    reveal(continues);
    if store::node_at(st, id) is Some {
        let b = store::node_deleted(st, id);
        assert forall|i: int| #![trigger b.edges[i]] 0 <= i < st.edges.len() implies (match (
            st.edges[i],
            b.edges[i],
        ) {
            (None, f) => f is None,
            (Some(e), Some(f)) => e.id == f.id && e.label == f.label && e.src == f.src && e.dst
                == f.dst,
            (Some(_), None) => true,
        }) by {}
    }
}

proof fn lemma_property_removed(x: Entity, k: Seq<char>, st: StoreV)
    ensures
        continues(st, writes::property_removed(x, k, st)),
{
    lemma_continues_same(st);
    match x {
        Entity::Node(id) => {
            lemma_continues_changed(st, id, assoc::unbind(store::node_props(st, id), k), seq![]);
        },
        Entity::Relationship(id) => {
            lemma_continues_changed(st, id, assoc::unbind(store::edge_props(st, id), k), seq![]);
        },
        Entity::Neither => {},
    }
}

proof fn lemma_property_set(x: Entity, k: Seq<char>, p: PropV, st: StoreV)
    ensures
        continues(st, writes::property_set(x, k, p, st)),
{
    lemma_continues_same(st);
    match x {
        Entity::Node(id) => {
            lemma_continues_changed(st, id, assoc::bind(store::node_props(st, id), k, p), seq![]);
        },
        Entity::Relationship(id) => {
            lemma_continues_changed(st, id, assoc::bind(store::edge_props(st, id), k, p), seq![]);
        },
        Entity::Neither => {},
    }
}

proof fn lemma_properties_set(x: Entity, m: PropsV, merge: bool, st: StoreV)
    ensures
        continues(st, writes::properties_set(x, m, merge, st)),
{
    lemma_continues_same(st);
    match x {
        Entity::Node(id) => {
            lemma_continues_changed(st, id, m, seq![]);
            lemma_continues_changed(
                st,
                id,
                assoc::bind_all(store::node_props(st, id), m),
                seq![],
            );
        },
        Entity::Relationship(id) => {
            lemma_continues_changed(st, id, m, seq![]);
            lemma_continues_changed(
                st,
                id,
                assoc::bind_all(store::edge_props(st, id), m),
                seq![],
            );
        },
        Entity::Neither => {},
    }
}

proof fn lemma_set_item(item: SetV, rec: RecV, env: EnvV, st: StoreV)
    ensures
        continues(st, writes::set_item(item, rec, env, st).1),
{
    lemma_continues_same(st);
    match item {
        SetV::Property { variable, property, expression } => {
            let x = writes::entity_of(rec, variable);
            lemma_property_removed(x, property, st);
            match crate::semantics::eval(expression, rec, env, st) {
                Ok(v) => match writes::property_from(v) {
                    Ok(p) => {
                        lemma_property_set(x, property, p, st);
                    },
                    Err(_) => {},
                },
                Err(_) => {},
            }
        },
        SetV::AllProperties { variable, expression } => {
            lemma_set_properties(variable, expression, false, rec, env, st);
        },
        SetV::MergeProperties { variable, expression } => {
            lemma_set_properties(variable, expression, true, rec, env, st);
        },
        SetV::Label { variable, labels } => match writes::entity_of(rec, variable) {
            Entity::Node(id) => {
                lemma_continues_changed(
                    st,
                    id,
                    seq![],
                    store::labels_joined(store::node_labels(st, id), labels, 0),
                );
            },
            _ => {},
        },
    }
}

proof fn lemma_set_properties(
    variable: Seq<char>,
    e: ExprV,
    merge: bool,
    rec: RecV,
    env: EnvV,
    st: StoreV,
)
    ensures
        continues(st, writes::set_properties(variable, e, merge, rec, env, st).1),
{
    lemma_continues_same(st);
    match crate::semantics::eval(e, rec, env, st) {
        Ok(v) => match writes::props_from(v) {
            Ok(m) => {
                lemma_properties_set(writes::entity_of(rec, variable), m, merge, st);
            },
            Err(_) => {},
        },
        Err(_) => {},
    }
}

proof fn lemma_set_items(items: Seq<SetV>, i: int, rec: RecV, env: EnvV, st: StoreV)
    ensures
        continues(st, writes::set_items(items, i, rec, env, st).1),
    decreases items.len() - i,
{
    lemma_continues_same(st);
    if 0 <= i < items.len() {
        lemma_set_item(items[i], rec, env.at(i), st);
        match writes::set_item(items[i], rec, env.at(i), st) {
            (Ok(r), after) => {
                lemma_set_items(items, i + 1, r, env, after);
                lemma_continues_on(st, after, writes::set_items(items, i + 1, r, env, after).1);
            },
            _ => {},
        }
    }
}

proof fn lemma_set_rows(rows: Seq<RecV>, i: int, items: Seq<SetV>, env: EnvV, st: StoreV)
    ensures
        continues(st, writes::set_rows(rows, i, items, env, st).1),
    decreases rows.len() - i,
{
    lemma_continues_same(st);
    if 0 <= i < rows.len() {
        lemma_set_items(items, 0, rows[i], env.at(i), st);
        match writes::set_items(items, 0, rows[i], env.at(i), st) {
            (Ok(r), after) => {
                lemma_set_rows(rows.update(i, r), i + 1, items, env, after);
                lemma_continues_on(
                    st,
                    after,
                    writes::set_rows(rows.update(i, r), i + 1, items, env, after).1,
                );
            },
            _ => {},
        }
    }
}

proof fn lemma_remove_item(item: RemoveV, rec: RecV, st: StoreV)
    ensures
        continues(st, writes::remove_item(item, rec, st).1),
{
    lemma_continues_same(st);
    match item {
        RemoveV::Property { variable, property } => {
            lemma_property_removed(writes::entity_of(rec, variable), property, st);
        },
        RemoveV::Label { variable, labels } => match writes::entity_of(rec, variable) {
            Entity::Node(id) => {
                lemma_continues_changed(
                    st,
                    id,
                    seq![],
                    store::labels_dropped(store::node_labels(st, id), labels, 0),
                );
            },
            _ => {},
        },
    }
}

proof fn lemma_remove_items(items: Seq<RemoveV>, i: int, rec: RecV, st: StoreV)
    ensures
        continues(st, writes::remove_items(items, i, rec, st).1),
    decreases items.len() - i,
{
    lemma_continues_same(st);
    if 0 <= i < items.len() {
        lemma_remove_item(items[i], rec, st);
        let (r, after) = writes::remove_item(items[i], rec, st);
        lemma_remove_items(items, i + 1, r, after);
        lemma_continues_on(st, after, writes::remove_items(items, i + 1, r, after).1);
    }
}

proof fn lemma_remove_rows(rows: Seq<RecV>, i: int, items: Seq<RemoveV>, st: StoreV)
    ensures
        continues(st, writes::remove_rows(rows, i, items, st).1),
    decreases rows.len() - i,
{
    lemma_continues_same(st);
    if 0 <= i < rows.len() {
        lemma_remove_items(items, 0, rows[i], st);
        let (r, after) = writes::remove_items(items, 0, rows[i], st);
        lemma_remove_rows(rows.update(i, r), i + 1, items, after);
        lemma_continues_on(
            st,
            after,
            writes::remove_rows(rows.update(i, r), i + 1, items, after).1,
        );
    }
}

proof fn lemma_create_node_rows(rows: Seq<RecV>, i: int, np: NodePatV, env: EnvV, st: StoreV)
    ensures
        continues(st, writes::create_node_rows(rows, i, np, env, st).1),
    decreases rows.len() - i,
{
    lemma_continues_same(st);
    if 0 <= i < rows.len() {
        match writes::resolved(np.properties, rows[i], env.at(i), st) {
            Ok(m) => {
                lemma_continues_created(st, np.labels, seq![], 0, 0, m);
            },
            Err(_) => {},
        }
        match writes::create_node_row(rows[i], np, env.at(i), st) {
            (Ok(r), after) => {
                lemma_create_node_rows(rows.update(i, r), i + 1, np, env, after);
                lemma_continues_on(
                    st,
                    after,
                    writes::create_node_rows(rows.update(i, r), i + 1, np, env, after).1,
                );
            },
            _ => {},
        }
    }
}

proof fn lemma_node_for(rec: RecV, np: NodePatV, env: EnvV, st: StoreV)
    ensures
        continues(st, writes::node_for(rec, np, env, st).1),
{
    lemma_continues_same(st);
    match writes::resolved(np.properties, rec, env, st) {
        Ok(m) => {
            lemma_continues_created(st, np.labels, seq![], 0, 0, m);
        },
        Err(_) => {},
    }
}

proof fn lemma_create_step(
    rec: RecV,
    prev: u64,
    step: ChainV,
    given: RecV,
    env: EnvV,
    st: StoreV,
)
    ensures
        continues(st, writes::create_step(rec, prev, step, given, env, st).1),
{
    lemma_node_for(rec, step.node, env.at(0), st);
    match writes::node_for(rec, step.node, env.at(0), st) {
        (Ok((rec1, dst)), st1) => match writes::resolved(
            step.relationship.properties,
            rec1,
            env.at(1),
            st1,
        ) {
            Ok(m) => {
                let label = if step.relationship.rel_types.len() > 0 {
                    step.relationship.rel_types[0]
                } else {
                    seq![]
                };
                lemma_continues_created(st1, seq![], label, prev, dst, m);
                lemma_continues_created(st1, seq![], label, dst, prev, m);
                lemma_continues_on(st, st1, store::edge_created(st1, label, prev, dst, m));
                lemma_continues_on(st, st1, store::edge_created(st1, label, dst, prev, m));
            },
            Err(_) => {},
        },
        _ => {},
    }
}

proof fn lemma_create_steps(
    rec: RecV,
    prev: u64,
    chain: Seq<ChainV>,
    i: int,
    given: RecV,
    env: EnvV,
    st: StoreV,
)
    ensures
        continues(st, writes::create_steps(rec, prev, chain, i, given, env, st).1),
    decreases chain.len() - i,
{
    lemma_continues_same(st);
    if 0 <= i < chain.len() {
        lemma_create_step(rec, prev, chain[i], given, env.at(i), st);
        match writes::create_step(rec, prev, chain[i], given, env.at(i), st) {
            (Ok((rec1, dst)), after) => {
                lemma_create_steps(rec1, dst, chain, i + 1, given, env, after);
                lemma_continues_on(
                    st,
                    after,
                    writes::create_steps(rec1, dst, chain, i + 1, given, env, after).1,
                );
            },
            _ => {},
        }
    }
}

proof fn lemma_create_path_row(
    rec: RecV,
    start: NodePatV,
    chain: Seq<ChainV>,
    given: RecV,
    env: EnvV,
    st: StoreV,
)
    ensures
        continues(st, writes::create_path_row(rec, start, chain, given, env, st).1),
{
    lemma_node_for(rec, start, env.at(0), st);
    match writes::node_for(rec, start, env.at(0), st) {
        (Ok((rec1, id)), st1) => {
            lemma_create_steps(rec1, id, chain, 0, given, env.at(1), st1);
            lemma_continues_on(
                st,
                st1,
                writes::create_steps(rec1, id, chain, 0, given, env.at(1), st1).1,
            );
        },
        _ => {},
    }
}

proof fn lemma_create_path_rows(
    rows: Seq<RecV>,
    i: int,
    start: NodePatV,
    chain: Seq<ChainV>,
    env: EnvV,
    st: StoreV,
)
    ensures
        continues(st, writes::create_path_rows(rows, i, start, chain, env, st).1),
    decreases rows.len() - i,
{
    lemma_continues_same(st);
    if 0 <= i < rows.len() {
        lemma_create_path_row(rows[i], start, chain, seq![], env.at(i), st);
        match writes::create_path_row(rows[i], start, chain, seq![], env.at(i), st) {
            (Ok(r), after) => {
                lemma_create_path_rows(rows.update(i, r), i + 1, start, chain, env, after);
                lemma_continues_on(
                    st,
                    after,
                    writes::create_path_rows(rows.update(i, r), i + 1, start, chain, env, after).1,
                );
            },
            _ => {},
        }
    }
}

proof fn lemma_without_edges(ids: Seq<u64>, i: int, st: StoreV)
    ensures
        continues(st, deletes::without_edges(ids, i, st).1),
    decreases ids.len() - i,
{
    lemma_continues_same(st);
    if 0 <= i < ids.len() && store::edge_at(st, ids[i]) is Some {
        lemma_continues_deleted(st, ids[i]);
        let after = store::edge_deleted(st, ids[i]);
        lemma_without_edges(ids, i + 1, after);
        lemma_continues_on(st, after, deletes::without_edges(ids, i + 1, after).1);
    }
}

proof fn lemma_without_nodes(ids: Seq<u64>, i: int, detach: bool, st: StoreV)
    ensures
        continues(st, deletes::without_nodes(ids, i, detach, st).1),
    decreases ids.len() - i,
{
    lemma_continues_same(st);
    if 0 <= i < ids.len() && store::delete_refusal(st, ids[i], detach) is None {
        lemma_continues_deleted(st, ids[i]);
        let after = store::node_deleted(st, ids[i]);
        lemma_without_nodes(ids, i + 1, detach, after);
        lemma_continues_on(st, after, deletes::without_nodes(ids, i + 1, detach, after).1);
    }
}

proof fn lemma_deleted(t: TableV, exprs: Seq<ExprV>, detach: bool, env: EnvV, st: StoreV)
    ensures
        continues(st, deletes::deleted(t, exprs, detach, env, st).1),
{
    lemma_continues_same(st);
    let none = deletes::DoomedV { nodes: seq![], edges: seq![] };
    match deletes::doomed(t.rows, 0, exprs, none, env, st) {
        Ok(d) => {
            lemma_without_edges(d.edges, 0, st);
            match deletes::without_edges(d.edges, 0, st) {
                (Ok(_), st1) => {
                    lemma_without_nodes(d.nodes, 0, detach, st1);
                    lemma_continues_on(
                        st,
                        st1,
                        deletes::without_nodes(d.nodes, 0, detach, st1).1,
                    );
                },
                _ => {},
            }
        },
        Err(_) => {},
    }
}

proof fn lemma_set_opt(items: Option<Seq<SetV>>, rec: RecV, env: EnvV, st: StoreV)
    ensures
        continues(st, merges::set_opt(items, rec, env, st).1),
{
    lemma_continues_same(st);
    match items {
        Some(s) => {
            lemma_set_items(s, 0, rec, env, st);
        },
        None => {},
    }
}

proof fn lemma_matched_rows(
    rec: RecV,
    variable: Seq<char>,
    ids: Seq<u64>,
    i: int,
    acc: Seq<RecV>,
    on_match: Option<Seq<SetV>>,
    env: EnvV,
    st: StoreV,
)
    ensures
        continues(
            st,
            merges::matched_rows(rec, variable, ids, i, acc, on_match, env, st).1,
        ),
    decreases ids.len() - i,
{
    lemma_continues_same(st);
    if 0 <= i < ids.len() && store::node_at(st, ids[i]) is Some {
        let bound = writes::with_node(rec, variable, ids[i], st);
        lemma_set_opt(on_match, bound, env.at(i), st);
        match merges::set_opt(on_match, bound, env.at(i), st) {
            (Ok(r), after) => {
                lemma_matched_rows(
                    rec,
                    variable,
                    ids,
                    i + 1,
                    acc.push(r),
                    on_match,
                    env,
                    after,
                );
                lemma_continues_on(
                    st,
                    after,
                    merges::matched_rows(
                        rec,
                        variable,
                        ids,
                        i + 1,
                        acc.push(r),
                        on_match,
                        env,
                        after,
                    ).1,
                );
            },
            _ => {},
        }
    }
}

proof fn lemma_merge_node_row(
    rec: RecV,
    np: NodePatV,
    variable: Seq<char>,
    acc: Seq<RecV>,
    on_create: Option<Seq<SetV>>,
    on_match: Option<Seq<SetV>>,
    env: EnvV,
    st: StoreV,
)
    ensures
        continues(
            st,
            merges::merge_node_row(rec, np, variable, acc, on_create, on_match, env, st).1,
        ),
{
    lemma_continues_same(st);
    match writes::resolved(np.properties, rec, env.at(0), st) {
        Ok(m) => {
            let ids = store::found(st, np.labels, m);
            lemma_matched_rows(rec, variable, ids, 0, acc, on_match, env.at(1), st);
            let created = store::node_created(st, np.labels, m);
            lemma_continues_created(st, np.labels, seq![], 0, 0, m);
            let bound = writes::with_node(rec, variable, st.nodes.len() as u64, created);
            lemma_set_opt(on_create, bound, env.at(1), created);
            lemma_continues_on(
                st,
                created,
                merges::set_opt(on_create, bound, env.at(1), created).1,
            );
        },
        Err(_) => {},
    }
}

proof fn lemma_merge_node_rows(
    rows: Seq<RecV>,
    i: int,
    np: NodePatV,
    variable: Seq<char>,
    acc: Seq<RecV>,
    on_create: Option<Seq<SetV>>,
    on_match: Option<Seq<SetV>>,
    env: EnvV,
    st: StoreV,
)
    ensures
        continues(
            st,
            merges::merge_node_rows(rows, i, np, variable, acc, on_create, on_match, env, st).1,
        ),
    decreases rows.len() - i,
{
    lemma_continues_same(st);
    if 0 <= i < rows.len() {
        lemma_merge_node_row(rows[i], np, variable, acc, on_create, on_match, env.at(i), st);
        match merges::merge_node_row(
            rows[i],
            np,
            variable,
            acc,
            on_create,
            on_match,
            env.at(i),
            st,
        ) {
            (Ok(acc1), after) => {
                lemma_merge_node_rows(
                    rows,
                    i + 1,
                    np,
                    variable,
                    acc1,
                    on_create,
                    on_match,
                    env,
                    after,
                );
                lemma_continues_on(
                    st,
                    after,
                    merges::merge_node_rows(
                        rows,
                        i + 1,
                        np,
                        variable,
                        acc1,
                        on_create,
                        on_match,
                        env,
                        after,
                    ).1,
                );
            },
            _ => {},
        }
    }
}

proof fn lemma_walk_rows(
    cands: Seq<merges::CandV>,
    i: int,
    acc: Seq<RecV>,
    on_match: Option<Seq<SetV>>,
    env: EnvV,
    st: StoreV,
)
    ensures
        continues(st, merges::walk_rows(cands, i, acc, on_match, env, st).1),
    decreases cands.len() - i,
{
    lemma_continues_same(st);
    if 0 <= i < cands.len() {
        lemma_set_opt(on_match, cands[i].0, env.at(i), st);
        match merges::set_opt(on_match, cands[i].0, env.at(i), st) {
            (Ok(r), after) => {
                lemma_walk_rows(cands, i + 1, acc.push(r), on_match, env, after);
                lemma_continues_on(
                    st,
                    after,
                    merges::walk_rows(cands, i + 1, acc.push(r), on_match, env, after).1,
                );
            },
            _ => {},
        }
    }
}

proof fn lemma_merge_chain_row(
    rec: RecV,
    start: NodePatV,
    chain: Seq<ChainV>,
    acc: Seq<RecV>,
    on_create: Option<Seq<SetV>>,
    on_match: Option<Seq<SetV>>,
    env: EnvV,
    st: StoreV,
)
    ensures
        continues(
            st,
            merges::merge_chain_row(rec, start, chain, acc, on_create, on_match, env, st).1,
        ),
{
    lemma_continues_same(st);
    match merges::seeds(rec, start, env.at(0), st) {
        Ok(first) => match merges::walks(first, chain, 0, env.at(1), st) {
            Ok(cands) => {
                lemma_walk_rows(cands, 0, acc, on_match, env.at(2), st);
                lemma_create_path_row(rec, start, chain, rec, env.at(3), st);
                match writes::create_path_row(rec, start, chain, rec, env.at(3), st) {
                    (Ok(r), st1) => {
                        lemma_set_opt(on_create, r, env.at(4), st1);
                        lemma_continues_on(
                            st,
                            st1,
                            merges::set_opt(on_create, r, env.at(4), st1).1,
                        );
                    },
                    _ => {},
                }
            },
            Err(_) => {},
        },
        Err(_) => {},
    }
}

proof fn lemma_merge_chain_rows(
    rows: Seq<RecV>,
    i: int,
    start: NodePatV,
    chain: Seq<ChainV>,
    acc: Seq<RecV>,
    on_create: Option<Seq<SetV>>,
    on_match: Option<Seq<SetV>>,
    env: EnvV,
    st: StoreV,
)
    ensures
        continues(
            st,
            merges::merge_chain_rows(
                rows,
                i,
                start,
                chain,
                acc,
                on_create,
                on_match,
                env,
                st,
            ).1,
        ),
    decreases rows.len() - i,
{
    lemma_continues_same(st);
    if 0 <= i < rows.len() {
        lemma_merge_chain_row(
            rows[i],
            start,
            chain,
            acc,
            on_create,
            on_match,
            env.at(i),
            st,
        );
        match merges::merge_chain_row(
            rows[i],
            start,
            chain,
            acc,
            on_create,
            on_match,
            env.at(i),
            st,
        ) {
            (Ok(acc1), after) => {
                lemma_merge_chain_rows(
                    rows,
                    i + 1,
                    start,
                    chain,
                    acc1,
                    on_create,
                    on_match,
                    env,
                    after,
                );
                lemma_continues_on(
                    st,
                    after,
                    merges::merge_chain_rows(
                        rows,
                        i + 1,
                        start,
                        chain,
                        acc1,
                        on_create,
                        on_match,
                        env,
                        after,
                    ).1,
                );
            },
            _ => {},
        }
    }
}

proof fn lemma_step(p: PlanV, t: TableV, env: EnvV, st: StoreV)
    ensures
        continues(st, executor::step(p, t, env, st).1),
{
    reveal(executor::step);
    lemma_continues_same(st);
    let base = writes::base_rows(t.rows);
    match p {
        PlanV::CreateNode { pattern, .. } => {
            lemma_create_node_rows(base, 0, pattern, env, st);
        },
        PlanV::CreatePath { start, elements, .. } => {
            lemma_create_path_rows(base, 0, start, elements, env, st);
        },
        PlanV::SetOp { items, .. } => {
            lemma_set_rows(t.rows, 0, items, env, st);
        },
        PlanV::RemoveOp { items, .. } => {
            lemma_remove_rows(t.rows, 0, items, st);
        },
        PlanV::DeleteOp { expressions, detach, .. } => {
            lemma_deleted(t, expressions, detach, env, st);
        },
        PlanV::MergeOp { pattern, on_create, on_match, .. } => match pattern {
            PatternV::Node(np) => {
                lemma_merge_node_rows(
                    base,
                    0,
                    np,
                    merges::merge_variable(np.variable),
                    seq![],
                    on_create,
                    on_match,
                    env,
                    st,
                );
            },
            PatternV::Chain { start, elements } => {
                lemma_merge_chain_rows(
                    base,
                    0,
                    start,
                    elements,
                    seq![],
                    on_create,
                    on_match,
                    env,
                    st,
                );
            },
            _ => {},
        },
        _ => {},
    }
}

proof fn lemma_source(p: PlanV, env: EnvV, st: StoreV)
    ensures
        continues(st, executor::source(p, env, st).1),
{
    lemma_continues_same(st);
    match p {
        PlanV::CreateConstraint { label, properties, constraint_type } => {
            let after = writes::constraint_created(
                label,
                properties,
                constraint_type,
                env.answers,
                st,
            ).1;
            lemma_continues_constrained(st, after);
        },
        _ => {},
    }
}

/// Whatever a plan does to a graph: no identifier is given twice, and a
/// relationship that stays keeps its type and its ends.
pub proof fn lemma_run_continues(p: PlanV, env: EnvV, st: StoreV)
    ensures
        continues(st, executor::run(p, env, st).1),
    decreases plan::plan_size(p),
{
    plan::lemma_plan_size(p);
    match plan::input_of(p) {
        None => {
            lemma_source(p, env, st);
        },
        Some(q) => {
            lemma_run_continues(*q, env.at(0), st);
            match executor::run(*q, env.at(0), st) {
                (Ok(t), after) => match plan::second_of(p) {
                    None => {
                        lemma_step(p, t, env.at(1), after);
                        lemma_continues_on(
                            st,
                            after,
                            executor::step(p, t, env.at(1), after).1,
                        );
                    },
                    Some(q2) => {
                        lemma_run_continues(*q2, env.at(1), after);
                        lemma_continues_on(
                            st,
                            after,
                            executor::run(*q2, env.at(1), after).1,
                        );
                    },
                },
                _ => {},
            }
        },
    }
}

/// Whatever a query does to a graph, also where it fails: no identifier is
/// given twice, and a relationship that stays keeps its type and its ends.
pub proof fn lemma_query_continues(q: Seq<char>, env: EnvV, st: StoreV)
    ensures
        continues(st, graph::queried(q, env, st).1),
{
    lemma_continues_same(st);
    match graph::planned(q) {
        Ok(p) => {
            lemma_run_continues(p, env, st);
        },
        Err(_) => {},
    }
}

// ---------------------------------------------------------------------------
// Reading
// ---------------------------------------------------------------------------

/// A plan that has no step that changes the graph.
pub open spec fn only_reads(p: PlanV) -> bool
    decreases plan::plan_size(p),
{
    proof {
        plan::lemma_plan_size(p);
    }
    &&& !(p is CreateNode)
    &&& !(p is CreatePath)
    &&& !(p is SetOp)
    &&& !(p is RemoveOp)
    &&& !(p is DeleteOp)
    &&& !(p is MergeOp)
    &&& !(p is CreateConstraint)
    &&& plan::input_of(p) matches Some(q) ==> only_reads(*q)
    &&& plan::second_of(p) matches Some(q) ==> only_reads(*q)
}

/// A plan without a step that changes the graph leaves it as it is.
pub proof fn lemma_reads_keep(p: PlanV, env: EnvV, st: StoreV)
    requires
        only_reads(p),
    ensures
        executor::run(p, env, st).1 == st,
    decreases plan::plan_size(p),
{
    plan::lemma_plan_size(p);
    reveal(executor::step);
    match plan::input_of(p) {
        None => {},
        Some(q) => {
            lemma_reads_keep(*q, env.at(0), st);
            match plan::second_of(p) {
                None => {},
                Some(q2) => {
                    lemma_reads_keep(*q2, env.at(1), st);
                },
            }
        },
    }
}

/// A clause that changes nothing.
pub open spec fn reading_clause(c: ClauseV) -> bool {
    match c {
        ClauseV::Match(_, _) => true,
        ClauseV::Return(_) => true,
        ClauseV::Where(_) => true,
        ClauseV::With(_, _) => true,
        ClauseV::Unwind(_, _) => true,
        ClauseV::LoadCsv { .. } => true,
        _ => false,
    }
}

/// A statement of clauses that change nothing.
pub open spec fn reading(s: StmtV) -> bool
    decreases s,
{
    match s {
        StmtV::Query(clauses) => forall|i: int|
            0 <= i < clauses.len() ==> reading_clause(#[trigger] clauses[i]),
        StmtV::Union { left, right, .. } => reading(*left) && reading(*right),
        StmtV::CreateConstraint { .. } => false,
    }
}

proof fn lemma_reads_labels(p: PlanV, v: Seq<char>, ls: Seq<Seq<char>>, i: int)
    requires
        only_reads(p),
    ensures
        only_reads(planner::with_labels(p, v, ls, i)),
    decreases ls.len() - i,
{
    if 0 <= i < ls.len() {
        let q = PlanV::Filter { input: Box::new(p), predicate: planner::label_test(v, ls[i]) };
        assert(only_reads(q));
        lemma_reads_labels(q, v, ls, i + 1);
    }
}

proof fn lemma_reads_entries(p: PlanV, v: Seq<char>, es: Seq<(KeyV, ExprV)>, i: int)
    requires
        only_reads(p),
    ensures
        only_reads(planner::with_entries(p, v, es, i)),
    decreases es.len() - i,
{
    if 0 <= i < es.len() {
        match es[i].0 {
            KeyV::Identifier(k) => {
                let q = PlanV::Filter {
                    input: Box::new(p),
                    predicate: planner::property_test(v, k, es[i].1),
                };
                assert(only_reads(q));
                lemma_reads_entries(q, v, es, i + 1);
            },
            KeyV::Expression(_) => lemma_reads_entries(p, v, es, i + 1),
        }
    }
}

proof fn lemma_reads_tests(
    p: PlanV,
    v: Seq<char>,
    ls: Seq<Seq<char>>,
    i: int,
    props: Option<Seq<(KeyV, ExprV)>>,
)
    requires
        only_reads(p),
    ensures
        only_reads(planner::with_props(planner::with_labels(p, v, ls, i), v, props)),
        only_reads(planner::with_props(p, v, props)),
{
    lemma_reads_labels(p, v, ls, i);
    if let Some(es) = props {
        lemma_reads_entries(planner::with_labels(p, v, ls, i), v, es, 0);
        lemma_reads_entries(p, v, es, 0);
    }
}

proof fn lemma_reads_scan(np: NodePatV, v: Seq<char>)
    ensures
        only_reads(planner::node_scan(np, v)),
{
    let scan = PlanV::ScanNodes {
        label_filter: if np.labels.len() > 0 {
            Some(np.labels[0])
        } else {
            None
        },
        inline_props: planner::fixed_props(np.properties),
        variable: v,
    };
    assert(only_reads(scan));
    lemma_reads_tests(scan, v, np.labels, 1, np.properties);
}

proof fn lemma_reads_chain(p: PlanV, src: Seq<char>, chain: Seq<ChainV>, i: int)
    requires
        only_reads(p),
    ensures
        only_reads(planner::with_chain(p, src, chain, i)),
    decreases chain.len() - i,
{
    if 0 <= i < chain.len() {
        let step = chain[i];
        let hop = HopV {
            src,
            rel: planner::rel_name(step.relationship, i),
            dst: planner::dst_name(step.node, i),
            types: step.relationship.rel_types,
            direction: step.relationship.direction,
        };
        let moved = match step.relationship.range {
            Some(r) => PlanV::VarLengthExpand {
                input: Box::new(p),
                hop,
                min_hops: planner::min_hops(r),
                max_hops: r.max,
            },
            None => PlanV::Expand { input: Box::new(p), hop },
        };
        assert(only_reads(moved));
        let tested = match (step.relationship.range, hop.rel) {
            (None, Some(rv)) => planner::with_props(moved, rv, step.relationship.properties),
            _ => moved,
        };
        if hop.rel is Some {
            lemma_reads_tests(
                moved,
                hop.rel->0,
                step.node.labels,
                0,
                step.relationship.properties,
            );
        }
        lemma_reads_tests(tested, hop.dst, step.node.labels, 0, step.node.properties);
        lemma_reads_chain(
            planner::with_step(p, src, step, i),
            planner::dst_name(step.node, i),
            chain,
            i + 1,
        );
    }
}

proof fn lemma_reads_joined(p: PlanV, scan: PlanV)
    requires
        only_reads(p),
        only_reads(scan),
    ensures
        only_reads(planner::joined_with(p, scan)),
{
}

proof fn lemma_reads_shortest(
    p: PlanV,
    path: Option<Seq<char>>,
    start: NodePatV,
    rel: RelPatV,
    end: NodePatV,
    all: bool,
)
    requires
        only_reads(p),
    ensures
        only_reads(planner::with_shortest(p, path, start, rel, end, all)),
{
    let src = planner::name_or(start.variable, "_anon_start"@);
    let dst = planner::name_or(end.variable, "_anon_end"@);
    lemma_reads_scan(start, src);
    lemma_reads_scan(end, dst);
    lemma_reads_joined(p, planner::node_scan(start, src));
    let q = planner::with_end(p, start, src, planner::must_scan(start, p));
    lemma_reads_joined(q, planner::node_scan(end, dst));
}

proof fn lemma_reads_part(p: PlanV, part: PartV)
    requires
        only_reads(p),
    ensures
        only_reads(planner::with_part(p, part)),
{
    match part.element {
        PatternV::Node(np) => {
            let v = planner::name_or(np.variable, planner::name_or(part.variable, "_anon"@));
            lemma_reads_scan(np, v);
            lemma_reads_joined(p, planner::node_scan(np, v));
        },
        PatternV::Chain { start, elements } => {
            let src = planner::name_or(
                start.variable,
                planner::name_or(part.variable, "_anon_start"@),
            );
            lemma_reads_scan(start, src);
            lemma_reads_chain(planner::node_scan(start, src), src, elements, 0);
            lemma_reads_joined(
                p,
                planner::with_chain(planner::node_scan(start, src), src, elements, 0),
            );
        },
        PatternV::ShortestPath { start, relationship, end } => {
            lemma_reads_shortest(p, part.variable, start, relationship, end, false);
        },
        PatternV::AllShortestPaths { start, relationship, end } => {
            lemma_reads_shortest(p, part.variable, start, relationship, end, true);
        },
    }
}

proof fn lemma_reads_parts(p: PlanV, parts: Seq<PartV>, i: int)
    requires
        only_reads(p),
    ensures
        only_reads(planner::with_parts(p, parts, i)),
    decreases parts.len() - i,
{
    if 0 <= i < parts.len() {
        lemma_reads_part(p, parts[i]);
        lemma_reads_parts(planner::with_part(p, parts[i]), parts, i + 1);
    }
}

proof fn lemma_reads_sort(
    p: PlanV,
    sorts: Option<Seq<SortV>>,
    skip: Option<ExprV>,
    limit: Option<ExprV>,
)
    requires
        only_reads(p),
    ensures
        only_reads(planner::with_sort(p, sorts)),
        only_reads(planner::with_skip_limit(p, skip, limit)),
{
    if let Some(count) = skip {
        assert(only_reads(PlanV::Skip { input: Box::new(p), count }));
    }
}

proof fn lemma_reads_projection(c: ProjV, e: Option<ExprV>, p: PlanV)
    requires
        only_reads(p),
    ensures
        only_reads(planner::return_plan(c, p)),
        only_reads(planner::with_plan(c, e, p)),
{
    let after = match c.order_by {
        Some(sorts) => planner::sorts_by_alias(sorts, c.items, 0),
        None => false,
    };
    lemma_reads_sort(p, c.order_by, c.skip, c.limit);
    let before = if after {
        p
    } else {
        planner::with_sort(p, c.order_by)
    };
    let returned = PlanV::Return {
        input: Box::new(before),
        items: c.items,
        distinct: c.distinct,
    };
    assert(only_reads(returned));
    lemma_reads_sort(returned, c.order_by, c.skip, c.limit);
    lemma_reads_sort(planner::with_sort(returned, c.order_by), c.order_by, c.skip, c.limit);
    let piped = PlanV::With {
        input: Box::new(p),
        items: c.items,
        distinct: c.distinct,
        where_predicate: e,
    };
    assert(only_reads(piped));
    lemma_reads_sort(piped, c.order_by, c.skip, c.limit);
    lemma_reads_sort(planner::with_sort(piped, c.order_by), c.order_by, c.skip, c.limit);
}

proof fn lemma_reads_clause(c: ClauseV, p: PlanV)
    requires
        reading_clause(c),
        only_reads(p),
    ensures
        planner::clause_plan(c, p) matches Ok(q) ==> only_reads(q),
{
    match c {
        ClauseV::Match(parts, kind) => {
            lemma_reads_parts(p, parts, 0);
            assert(only_reads(PlanV::EmptyRow));
            lemma_reads_parts(PlanV::EmptyRow, parts, 0);
        },
        ClauseV::Return(c) => lemma_reads_projection(c, None, p),
        ClauseV::With(c, e) => lemma_reads_projection(c, e, p),
        _ => {},
    }
}

proof fn lemma_reads_clauses(cs: Seq<ClauseV>, i: int, p: PlanV)
    requires
        0 <= i,
        only_reads(p),
        forall|j: int| 0 <= j < cs.len() ==> reading_clause(#[trigger] cs[j]),
    ensures
        planner::clauses_plan(cs, i, p) matches Ok(q) ==> only_reads(q),
    decreases cs.len() - i,
{
    if i < cs.len() {
        assert(reading_clause(cs[i]));
        lemma_reads_clause(cs[i], p);
        if let Ok(q) = planner::clause_plan(cs[i], p) {
            lemma_reads_clauses(cs, i + 1, q);
        }
    }
}

proof fn lemma_reads_statement(s: StmtV)
    requires
        reading(s),
    ensures
        planner::plan_of(s) matches Ok(p) ==> only_reads(p),
    decreases s,
{
    match s {
        StmtV::Query(cs) => {
            assert(only_reads(PlanV::EmptyRow));
            lemma_reads_clauses(cs, 0, PlanV::EmptyRow);
        },
        StmtV::Union { left, right, all } => {
            lemma_reads_statement(*left);
            lemma_reads_statement(*right);
        },
        _ => {},
    }
}

/// A query without CREATE, SET, REMOVE, DELETE, MERGE and constraints leaves
/// the graph as it is, whether it succeeds or not.
pub proof fn lemma_reading_query(q: Seq<char>, env: EnvV, st: StoreV)
    requires
        parser::statement_of(q) matches Ok(s) ==> reading(s),
    ensures
        graph::queried(q, env, st).1 == st,
{
    if let Ok(s) = parser::statement_of(q) {
        lemma_reads_statement(s);
        if let Ok(p) = planner::plan_of(s) {
            lemma_reads_keep(p, env, st);
        }
    }
}

/// A text that is no query gives the error of the parser or the planner, and
/// the graph stays as it is.
pub proof fn lemma_refused_query(q: Seq<char>, env: EnvV, st: StoreV)
    requires
        graph::planned(q) is Err,
    ensures
        graph::queried(q, env, st).0 is Err,
        graph::queried(q, env, st).1 == st,
{
}

/// LIMIT keeps the first rows, at most as many as it says.
#[verifier::spinoff_prover]
pub proof fn lemma_limit(p: PlanV, t: TableV, n: i64, env: EnvV, st: StoreV)
    requires
        p is Limit,
        rows::row_count("LIMIT"@, p->Limit_count, env, st) == Ok::<i64, ErrV>(n),
    ensures
        ({
            let kept = executor::read_step(p, t, env, st)->Ok_0;
            &&& executor::read_step(p, t, env, st) is Ok
            &&& kept.cols == t.cols
            &&& kept.rows.is_prefix_of(t.rows)
            &&& kept.rows.len() == rows::least_of(n as int, t.rows.len() as int)
        }),
{
    lemma_row_count("LIMIT"@, p->Limit_count, env, st);
    let m = rows::least_of(n as int, t.rows.len() as int);
    let kept = TableV { rows: t.rows.take(m), ..t };
    assert(executor::read_step(p, t, env, st) == Ok::<TableV, ErrV>(kept));
}

/// SKIP leaves out the first rows, as many as it says, and keeps the rest.
#[verifier::spinoff_prover]
pub proof fn lemma_skip(p: PlanV, t: TableV, n: i64, env: EnvV, st: StoreV)
    requires
        p is Skip,
        rows::row_count("SKIP"@, p->Skip_count, env, st) == Ok::<i64, ErrV>(n),
    ensures
        ({
            let kept = executor::read_step(p, t, env, st)->Ok_0;
            let m = rows::least_of(n as int, t.rows.len() as int);
            &&& executor::read_step(p, t, env, st) is Ok
            &&& kept.cols == t.cols
            &&& t.rows.take(m) + kept.rows == t.rows
        }),
{
    lemma_row_count("SKIP"@, p->Skip_count, env, st);
    let m = rows::least_of(n as int, t.rows.len() as int);
    let kept = TableV { rows: t.rows.skip(m), ..t };
    assert(executor::read_step(p, t, env, st) == Ok::<TableV, ErrV>(kept));
    assert(t.rows.take(m) + kept.rows =~= t.rows);
}

/// The number of rows that SKIP or LIMIT says is not negative.
proof fn lemma_row_count(clause: Seq<char>, e: ExprV, env: EnvV, st: StoreV)
    ensures
        rows::row_count(clause, e, env, st) matches Ok(n) ==> n >= 0,
{
}

// ---------------------------------------------------------------------------
// DISTINCT
// ---------------------------------------------------------------------------

/// The key of a row in some columns.
spec fn key_in(rec: RecV, cols: Seq<Seq<char>>) -> Seq<char> {
    keying::row_key(keying::columns_of(rec, cols))
}

/// A row has the key of one of several in some columns.
spec fn is_keyed_as_one(rec: RecV, rows: Seq<RecV>, cols: Seq<Seq<char>>) -> bool {
    exists|b: int|
        0 <= b < rows.len() && key_in(#[trigger] rows[b], cols) == key_in(rec, cols)
}

/// Two rows are alike in some columns.
pub open spec fn rows_alike(a: RecV, b: RecV, cols: Seq<Seq<char>>) -> bool {
    identity::all_alike(keying::columns_of(a, cols), keying::columns_of(b, cols))
}

/// A row is like one of several in some columns.
pub open spec fn is_like_one(rec: RecV, rows: Seq<RecV>, cols: Seq<Seq<char>>) -> bool {
    exists|b: int| 0 <= b < rows.len() && rows_alike(#[trigger] rows[b], rec, cols)
}

/// No map in a column of a row has a key twice.
pub open spec fn plain_row(rec: RecV, cols: Seq<Seq<char>>) -> bool {
    forall|i: int|
        0 <= i < cols.len() ==> identity::plainly_keyed(
            #[trigger] keying::columns_of(rec, cols)[i],
        )
}

proof fn lemma_distinct_from(
    rows: Seq<RecV>,
    cols: Seq<Seq<char>>,
    i: int,
    seen: Seq<Seq<char>>,
    acc: Seq<RecV>,
)
    requires
        0 <= i <= rows.len(),
        seen.len() == acc.len(),
        forall|a: int| 0 <= a < acc.len() ==> seen[a] == key_in(#[trigger] acc[a], cols),
        forall|a: int, b: int|
            0 <= a < b < acc.len() ==> key_in(#[trigger] acc[a], cols) != key_in(
                #[trigger] acc[b],
                cols,
            ),
        forall|a: int|
            0 <= a < i ==> text::has_text(seen, key_in(#[trigger] rows[a], cols)),
        forall|a: int| 0 <= a < acc.len() ==> rows.contains(#[trigger] acc[a]),
    ensures
        ({
            let out = keying::distinct_rows(rows, cols, i, seen, acc);
            &&& forall|a: int, b: int|
                0 <= a < b < out.len() ==> key_in(#[trigger] out[a], cols) != key_in(
                    #[trigger] out[b],
                    cols,
                )
            &&& forall|a: int| 0 <= a < rows.len() ==> is_keyed_as_one(#[trigger] rows[a], out, cols)
            &&& forall|a: int| 0 <= a < out.len() ==> rows.contains(#[trigger] out[a])
        }),
    decreases rows.len() - i,
{
    if i < rows.len() {
        let k = key_in(rows[i], cols);
        if text::has_text(seen, k) {
            lemma_distinct_from(rows, cols, i + 1, seen, acc);
        } else {
            let seen1 = seen.push(k);
            let acc1 = acc.push(rows[i]);
            assert forall|a: int, b: int| 0 <= a < b < acc1.len() implies key_in(
                #[trigger] acc1[a],
                cols,
            ) != key_in(#[trigger] acc1[b], cols) by {
                if b == acc.len() {
                    assert(seen[a] == key_in(acc[a], cols));
                }
            }
            assert forall|a: int| 0 <= a < i + 1 implies text::has_text(
                seen1,
                key_in(#[trigger] rows[a], cols),
            ) by {
                if a < i {
                    assert(text::has_text(seen, key_in(rows[a], cols)));
                    let j = choose|j: int|
                        0 <= j < seen.len() && #[trigger] seen[j] == key_in(rows[a], cols);
                    assert(seen1[j] == key_in(rows[a], cols));
                } else {
                    assert(seen1[seen.len() as int] == k);
                }
            }
            lemma_distinct_from(rows, cols, i + 1, seen1, acc1);
        }
    } else {
        assert forall|a: int| 0 <= a < rows.len() implies is_keyed_as_one(
            #[trigger] rows[a],
            acc,
            cols,
        ) by {
            assert(text::has_text(seen, key_in(rows[a], cols)));
            let j = choose|j: int|
                0 <= j < seen.len() && #[trigger] seen[j] == key_in(rows[a], cols);
            assert(key_in(acc[j], cols) == key_in(rows[a], cols));
        }
    }
}

/// Without repetition every row that is left was there, no two have values
/// that are alike in the columns, and every row is like one that is left.
pub proof fn lemma_distinct_rows(rows: Seq<RecV>, cols: Seq<Seq<char>>)
    requires
        forall|a: int| 0 <= a < rows.len() ==> plain_row(#[trigger] rows[a], cols),
    ensures
        ({
            let out = keying::distinct_rows(rows, cols, 0, seq![], seq![]);
            &&& forall|a: int, b: int|
                0 <= a < b < out.len() ==> !rows_alike(#[trigger] out[a], #[trigger] out[b], cols)
            &&& forall|a: int| 0 <= a < rows.len() ==> is_like_one(#[trigger] rows[a], out, cols)
            &&& forall|a: int| 0 <= a < out.len() ==> rows.contains(#[trigger] out[a])
        }),
{
    let out = keying::distinct_rows(rows, cols, 0, seq![], seq![]);
    lemma_distinct_from(rows, cols, 0, seq![], seq![]);
    assert forall|a: int, b: int| 0 <= a < b < out.len() implies !rows_alike(
        #[trigger] out[a],
        #[trigger] out[b],
        cols,
    ) by {
        assert(rows.contains(out[a]) && rows.contains(out[b]));
        let i = choose|i: int| 0 <= i < rows.len() && rows[i] == out[a];
        let j = choose|j: int| 0 <= j < rows.len() && rows[j] == out[b];
        assert(plain_row(rows[i], cols) && plain_row(rows[j], cols));
        identity::lemma_row_key(
            keying::columns_of(out[a], cols),
            keying::columns_of(out[b], cols),
        );
    }
    assert forall|a: int| 0 <= a < rows.len() implies is_like_one(#[trigger] rows[a], out, cols) by {
        assert(is_keyed_as_one(rows[a], out, cols));
        let b = choose|b: int|
            0 <= b < out.len() && key_in(#[trigger] out[b], cols) == key_in(rows[a], cols);
        identity::lemma_row_key(
            keying::columns_of(out[b], cols),
            keying::columns_of(rows[a], cols),
        );
        assert(rows_alike(out[b], rows[a], cols));
    }
}

// ---------------------------------------------------------------------------
// Constraints
// ---------------------------------------------------------------------------

proof fn lemma_unique_breach_of(st: StoreV, label: Seq<char>, props: PropsV, i: int, j: int)
    requires
        0 <= i <= j < props.len(),
        store::unique_breach(st, label, props[j].0, props[j].1) is Some,
    ensures
        writes::unique_breach_of(st, label, props, i) is Some,
    decreases j - i,
{
    if i < j {
        lemma_unique_breach_of(st, label, props, i + 1, j);
    }
}

proof fn lemma_unique_breaches(
    st: StoreV,
    labels: Seq<Seq<char>>,
    l: int,
    m: int,
    props: PropsV,
    j: int,
)
    requires
        0 <= l <= m < labels.len(),
        0 <= j < props.len(),
        store::unique_breach(st, labels[m], props[j].0, props[j].1) is Some,
    ensures
        writes::unique_breaches(st, labels, l, props) is Some,
    decreases m - l,
{
    if l < m {
        lemma_unique_breaches(st, labels, l + 1, m, props, j);
    } else {
        lemma_unique_breach_of(st, labels[m], props, 0, j);
    }
}

/// Under a unique constraint on a label and a property, no node with the label
/// is created that has a value which a node with the label has already: the
/// query fails, on the constraint where the message can be written, and the
/// graph stays as it is.
pub proof fn lemma_unique_refused(
    rec: RecV,
    np: NodePatV,
    env: EnvV,
    st: StoreV,
    m: int,
    j: int,
    i: int,
)
    requires
        writes::resolved(np.properties, rec, env, st) is Ok,
        0 <= m < np.labels.len(),
        ({
            let props = writes::resolved(np.properties, rec, env, st)->Ok_0;
            &&& 0 <= j < props.len()
            &&& store::has_pair(st.unique, np.labels[m], props[j].0)
            &&& 0 <= i < st.nodes.len()
            &&& st.nodes[i] matches Some(n) && store::holds_value(
                n,
                np.labels[m],
                props[j].0,
                props[j].1,
            )
        }),
    ensures
        writes::create_node_row(rec, np, env, st).0 matches Err(x) && (refusal::shows_floats(
            env.answers,
        ) ==> x is Constraint),
        writes::create_node_row(rec, np, env, st).1 == st,
{
    let props = writes::resolved(np.properties, rec, env, st)->Ok_0;
    assert(store::unique_breach(st, np.labels[m], props[j].0, props[j].1) is Some) by {
        let n = st.nodes[i];
    }
    lemma_unique_breaches(st, np.labels, 0, m, props, j);
    if refusal::shows_floats(env.answers) {
        refusal::lemma_refused(
            env.answers,
            writes::constraint_breach(st, np.labels, props)->Some_0,
        );
    }
}

// ---------------------------------------------------------------------------
// MERGE
// ---------------------------------------------------------------------------

/// Properties none of which is the number that is unequal to itself.
pub open spec fn comparable(props: PropsV) -> bool {
    forall|i: int|
        0 <= i < props.len() ==> store::props_equal((#[trigger] props[i]).1, props[i].1)
}

proof fn lemma_own_props(props: PropsV, i: int)
    requires
        0 <= i <= props.len(),
        assoc::distinct_keys(props),
        comparable(props),
    ensures
        store::has_equal_props(props, props, i),
    decreases props.len() - i,
{
    if i < props.len() {
        lemma_own_props(props, i + 1);
        assoc::lemma_position(props, props[i].0, 0);
        let p = assoc::position(props, props[i].0);
        assert(p == Some(i)) by {
            match p {
                Some(x) => {
                    if x != i {
                        assert(props[x].0 == props[i].0);
                        if x < i {
                            assert(props[x].0 != props[i].0);
                        } else {
                            assert(props[i].0 != props[i].0);
                        }
                    }
                },
                None => {
                    assert(props[i].0 != props[i].0);
                },
            }
        }
    }
}

proof fn lemma_own_labels(labels: Seq<Seq<char>>, i: int)
    requires
        0 <= i <= labels.len(),
    ensures
        store::has_labels(labels, labels, i),
    decreases labels.len() - i,
{
    if i < labels.len() {
        lemma_own_labels(labels, i + 1);
        assert(labels[i] == labels[i]);
        assert(text::has_text(labels, labels[i]));
    }
}

/// A node that MERGE has created is found by the next MERGE of the same
/// pattern.
pub proof fn lemma_merged_found(st: StoreV, labels: Seq<Seq<char>>, props: PropsV)
    requires
        assoc::distinct_keys(props),
        comparable(props),
    ensures
        store::found(store::node_created(st, labels, props), labels, props).len() > 0,
{
    let after = store::node_created(st, labels, props);
    lemma_own_props(props, 0);
    lemma_own_labels(labels, 0);
    let n = after.nodes.len() as int;
    assert(after.nodes[n - 1] == Some(
        NodeV { id: st.nodes.len() as u64, labels, properties: props },
    ));
}

/// Where MERGE finds a node and has nothing to set on it, the graph stays as
/// it is.
pub proof fn lemma_merge_again(
    rec: RecV,
    np: NodePatV,
    variable: Seq<char>,
    acc: Seq<RecV>,
    on_create: Option<Seq<SetV>>,
    env: EnvV,
    st: StoreV,
)
    requires
        writes::resolved(np.properties, rec, env.at(0), st) matches Ok(props) && store::found(
            st,
            np.labels,
            props,
        ).len() > 0,
    ensures
        merges::merge_node_row(rec, np, variable, acc, on_create, None, env, st).1 == st,
{
    let props = writes::resolved(np.properties, rec, env.at(0), st)->Ok_0;
    let ids = store::found(st, np.labels, props);
    lemma_matched_keep(rec, variable, ids, 0, acc, env.at(1), st);
}

proof fn lemma_matched_keep(
    rec: RecV,
    variable: Seq<char>,
    ids: Seq<u64>,
    i: int,
    acc: Seq<RecV>,
    env: EnvV,
    st: StoreV,
)
    ensures
        merges::matched_rows(rec, variable, ids, i, acc, None, env, st).1 == st,
    decreases ids.len() - i,
{
    if 0 <= i < ids.len() && store::node_at(st, ids[i]) is Some {
        let r = writes::with_node(rec, variable, ids[i], st);
        lemma_matched_keep(rec, variable, ids, i + 1, acc.push(r), env, st);
    }
}

/// Properties that are written as integers, texts and truth values, each under
/// a fixed key.
pub open spec fn plain_literals(props: Option<Seq<(KeyV, ExprV)>>) -> bool {
    props matches Some(es) ==> forall|i: int|
        0 <= i < es.len() ==> (#[trigger] es[i]).0 is Identifier && plain_literal(es[i].1)
}

/// An integer, a text or a truth value.
pub open spec fn plain_literal(e: ExprV) -> bool {
    match e {
        ExprV::Literal(LitV::Integer(_)) => true,
        ExprV::Literal(LitV::Str(_)) => true,
        ExprV::Literal(LitV::Boolean(_)) => true,
        _ => false,
    }
}

proof fn lemma_plain_props(
    es: Seq<(KeyV, ExprV)>,
    i: int,
    acc: PropsV,
    rec: RecV,
    env: EnvV,
    st: StoreV,
    rec2: RecV,
    env2: EnvV,
    st2: StoreV,
)
    requires
        0 <= i,
        plain_literals(Some(es)),
        assoc::distinct_keys(acc),
        comparable(acc),
    ensures
        writes::pattern_props(es, i, acc, rec, env, st) matches Ok(props) && assoc::distinct_keys(
            props,
        ) && comparable(props) && writes::pattern_props(es, i, acc, rec2, env2, st2) == Ok::<
            PropsV,
            ErrV,
        >(props),
    decreases es.len() - i,
{
    if i < es.len() {
        let e = es[i];
        let l = e.1->Literal_0;
        let k = e.0->Identifier_0;
        assert(e.0 is Identifier && plain_literal(e.1));
        assert(semantics::eval(e.1, rec, env.at(i), st) == semantics::eval_literal(
            l,
            rec,
            env.at(i),
            st,
        ));
        assert(semantics::eval(e.1, rec2, env2.at(i), st2) == semantics::eval_literal(
            l,
            rec2,
            env2.at(i),
            st2,
        ));
        let v = semantics::eval_literal(l, rec, env.at(i), st)->Ok_0;
        let p = writes::property_from(v)->Ok_0;
        let next = assoc::bind(acc, k, p);
        assoc::lemma_bind_distinct(acc, k, p);
        assert(store::props_equal(p, p)) by {
            if let LitV::Str(t) = l {
                assert(p == PropV::Str(t));
            }
        }
        assert(comparable(next)) by {
            assoc::lemma_position(acc, k, 0);
            assert forall|j: int| 0 <= j < next.len() implies store::props_equal(
                (#[trigger] next[j]).1,
                next[j].1,
            ) by {
                if j < acc.len() && next[j] == acc[j] {
                    assert(store::props_equal(acc[j].1, acc[j].1));
                }
            }
        }
        lemma_plain_props(es, i + 1, next, rec, env, st, rec2, env2, st2);
    }
}

/// The rows for found nodes: one for each, with the node bound.
proof fn lemma_rows_found(
    rec: RecV,
    variable: Seq<char>,
    ids: Seq<u64>,
    i: int,
    acc: Seq<RecV>,
    env: EnvV,
    st: StoreV,
)
    requires
        0 <= i <= ids.len(),
        forall|j: int| 0 <= j < ids.len() ==> store::node_at(st, #[trigger] ids[j]) is Some,
    ensures
        merges::matched_rows(rec, variable, ids, i, acc, None, env, st) == (
            Ok::<Seq<RecV>, ErrV>(
                acc + Seq::new(
                    (ids.len() - i) as nat,
                    |j: int| writes::with_node(rec, variable, ids[i + j], st),
                ),
            ),
            st,
        ),
    decreases ids.len() - i,
{
    let rest = Seq::new(
        (ids.len() - i) as nat,
        |j: int| writes::with_node(rec, variable, ids[i + j], st),
    );
    if i < ids.len() {
        let r = writes::with_node(rec, variable, ids[i], st);
        assert(store::node_at(st, ids[i]) is Some);
        assert(merges::set_opt(None, r, env.at(i), st) == (Ok::<RecV, ErrV>(r), st));
        lemma_rows_found(rec, variable, ids, i + 1, acc.push(r), env, st);
        let next = Seq::new(
            (ids.len() - (i + 1)) as nat,
            |j: int| writes::with_node(rec, variable, ids[i + 1 + j], st),
        );
        assert(acc.push(r) + next =~= acc + rest);
    } else {
        assert(acc + rest =~= acc);
    }
}

proof fn lemma_found_there(st: StoreV, labels: Seq<Seq<char>>, props: PropsV, j: int)
    requires
        st.nodes.len() <= u64::MAX + 1,
        0 <= j < store::found(st, labels, props).len(),
    ensures
        store::node_at(st, store::found(st, labels, props)[j]) is Some,
{
    let p = |n: NodeV|
        store::has_labels(n.labels, labels, 0) && store::has_equal_props(n.properties, props, 0);
    let ids = store::found(st, labels, props);
    index::lemma_chosen_ids(st.nodes, p, st.nodes.len() as int);
    assert(ids.contains(ids[j]));
}

/// MERGE of a node twice is MERGE of it once: the second call leaves the graph
/// as the first has left it, and gives one row for each node with the labels
/// and properties of the pattern. The properties are integers, texts and truth
/// values.
pub proof fn lemma_merge_twice(t: TableV, np: NodePatV, env: EnvV, env2: EnvV, st: StoreV)
    requires
        t.rows.len() == 0 || t.rows == seq![RecV::empty()],
        plain_literals(np.properties),
        store::well_formed(st),
    ensures
        ({
            let once = merges::merged(t, PatternV::Node(np), None, None, env, st);
            let again = merges::merged(t, PatternV::Node(np), None, None, env2, once.1);
            let props = writes::resolved(np.properties, seq![], env.at(0).at(0), st)->Ok_0;
            let ids = store::found(once.1, np.labels, props);
            &&& once.0 is Ok
            &&& again.1 == once.1
            &&& again.0 matches Ok(u) && u.rows == Seq::new(
                ids.len(),
                |j: int|
                    writes::with_node(
                        seq![],
                        merges::merge_variable(np.variable),
                        ids[j],
                        once.1,
                    ),
            )
        }),
{
    let rec: RecV = seq![];
    let e1 = env.at(0);
    let e2 = env2.at(0);
    let v = merges::merge_variable(np.variable);
    let once = merges::merged(t, PatternV::Node(np), None, None, env, st);
    let st1 = once.1;
    assert(writes::base_rows(t.rows) =~= seq![rec]);
    if let Some(es) = np.properties {
        lemma_plain_props(es, 0, seq![], rec, e1.at(0), st, rec, e2.at(0), st1);
    }
    let props = writes::resolved(np.properties, rec, e1.at(0), st)->Ok_0;
    assert(writes::resolved(np.properties, rec, e2.at(0), st1) == Ok::<PropsV, ErrV>(props));
    let first = store::found(st, np.labels, props);
    lemma_merge_row(np, v, e1, env, st, props);
    if first.len() == 0 {
        lemma_merged_found(st, np.labels, props);
    }
    lemma_merge_row(np, v, e2, env2, st1, props);
}

/// MERGE of a node on one row without bindings.
proof fn lemma_merge_row(
    np: NodePatV,
    v: Seq<char>,
    e: EnvV,
    env: EnvV,
    st: StoreV,
    props: PropsV,
)
    requires
        e == env.at(0),
        st.nodes.len() <= u64::MAX + 1,
        writes::resolved(np.properties, seq![], e.at(0), st) == Ok::<PropsV, ErrV>(props),
    ensures
        ({
            let ids = store::found(st, np.labels, props);
            let r = merges::merge_node_rows(
                seq![RecV::empty()],
                0,
                np,
                v,
                seq![],
                None,
                None,
                env,
                st,
            );
            &&& ids.len() > 0 ==> r == (
                Ok::<Seq<RecV>, ErrV>(
                    Seq::new(
                        ids.len(),
                        |j: int| writes::with_node(RecV::empty(), v, ids[j], st),
                    ),
                ),
                st,
            )
            &&& ids.len() == 0 ==> r.0 is Ok && r.1 == store::node_created(st, np.labels, props)
        }),
{
    let rec = RecV::empty();
    let none = Seq::<RecV>::empty();
    let ids = store::found(st, np.labels, props);
    let row = merges::merge_node_row(rec, np, v, none, None, None, e, st);
    if ids.len() > 0 {
        assert forall|j: int| 0 <= j < ids.len() implies store::node_at(
            st,
            #[trigger] ids[j],
        ) is Some by {
            lemma_found_there(st, np.labels, props, j);
        }
        lemma_rows_found(rec, v, ids, 0, none, e.at(1), st);
        assert(none + Seq::new(ids.len(), |j: int| writes::with_node(rec, v, ids[0 + j], st))
            =~= Seq::new(ids.len(), |j: int| writes::with_node(rec, v, ids[j], st)));
    }
    let rows = seq![rec];
    let acc1 = row.0->Ok_0;
    assert(row.0 is Ok);
    assert(merges::merge_node_rows(rows, 1, np, v, acc1, None, None, env, row.1) == (
        Ok::<Seq<RecV>, ErrV>(acc1),
        row.1,
    ));
}

// ---------------------------------------------------------------------------
// Modes
// ---------------------------------------------------------------------------

/// The name of an output mode stands for the mode.
pub proof fn lemma_mode_named(m: OutputMode)
    ensures
        display::mode_named(display::mode_name(m)) == Some(m),
{
    reveal_strlit("table");
    reveal_strlit("csv");
    reveal_strlit("json");
    reveal_strlit("line");
    assert(text::lower_text("table"@) =~= "table"@);
    assert(text::lower_text("csv"@) =~= "csv"@);
    assert(text::lower_text("json"@) =~= "json"@);
    assert(text::lower_text("line"@) =~= "line"@);
    assert("table"@.len() == 5 && "csv"@.len() == 3);
    assert("json"@[0] != "line"@[0]);
}

} // verus!
