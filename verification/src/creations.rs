//! What CREATE adds to a graph, and what DELETE takes from it.
use crate::assoc;
use crate::ast::{ChainV, Direction, ExprV, KeyV, NodePatV};
use crate::changes;
use crate::deletes::{self, DoomedV};
use crate::error::ErrV;
use crate::executor;
use crate::hops;
use crate::plan::PlanV;
use crate::recreate;
use crate::rows::{self, TableV};
use crate::semantics::{self, EnvV};
use crate::store::{self, StoreV};
use crate::totals;
use crate::value::{NodeV, PropsV, RecV, ValV};
use crate::writes;
use vstd::prelude::*;

verus! {

// ---------------------------------------------------------------------------
// Properties of patterns
// ---------------------------------------------------------------------------

/// The entries of a pattern have values that depend on nothing.
pub open spec fn constant(props: Option<Seq<(KeyV, ExprV)>>, m: RecV) -> bool {
    match props {
        None => m.len() == 0,
        Some(es) => es.len() == m.len() && forall|i: int, rec: RecV, env: EnvV, st: StoreV|
            0 <= i < es.len() ==> es[i].0 == KeyV::Identifier(m[i].0) && #[trigger] semantics::eval(
                es[i].1,
                rec,
                env,
                st,
            ) == Ok::<ValV, ErrV>(m[i].1),
    }
}

/// Properties are the entries of a map.
pub open spec fn holds_all(props: PropsV, m: RecV) -> bool {
    changes::puts(props, seq![], m, false)
}

proof fn lemma_resolved(
    props: Option<Seq<(KeyV, ExprV)>>,
    m: RecV,
    rec: RecV,
    env: EnvV,
    st: StoreV,
)
    requires
        constant(props, m),
        assoc::distinct_keys(m),
        changes::all_storable(m),
    ensures
        writes::resolved(props, rec, env, st) matches Ok(p) && holds_all(p, m),
{
    match props {
        None => {
            let p: PropsV = seq![];
            assert(holds_all(p, m)) by {
                assert forall|k: Seq<char>| match assoc::lookup(m, k) {
                    Some(v) => #[trigger] assoc::lookup(p, k) matches Some(w) && changes::stores(
                        w,
                        v,
                    ),
                    None => assoc::lookup(p, k) == None::<crate::value::PropV>,
                } by {}
            }
        },
        Some(es) => {
            lemma_pattern_props(es, m, 0, seq![], rec, env, st);
            let p = writes::pattern_props(es, 0, seq![], rec, env, st)->Ok_0;
            assert(holds_all(p, m)) by {
                assert forall|k: Seq<char>| match assoc::lookup(m, k) {
                    Some(v) => #[trigger] assoc::lookup(p, k) matches Some(w) && changes::stores(
                        w,
                        v,
                    ),
                    None => assoc::lookup(p, k) == None::<crate::value::PropV>,
                } by {
                    assert(assoc::lookup(PropsV::empty(), k) is None);
                }
            }
        },
    }
}

proof fn lemma_pattern_props(
    es: Seq<(KeyV, ExprV)>,
    m: RecV,
    i: int,
    acc: PropsV,
    rec: RecV,
    env: EnvV,
    st: StoreV,
)
    requires
        constant(Some(es), m),
        0 <= i <= m.len(),
        assoc::distinct_keys(m),
        changes::all_storable(m),
    ensures
        writes::pattern_props(es, i, acc, rec, env, st) matches Ok(props) && forall|k: Seq<char>|
            match assoc::position_from(m, k, i) {
                Some(p) => #[trigger] assoc::lookup(props, k) matches Some(w) && changes::stores(
                    w,
                    m[p].1,
                ),
                None => assoc::lookup(props, k) == assoc::lookup(acc, k),
            },
    decreases m.len() - i,
{
    if i < m.len() {
        assert(semantics::eval(es[i].1, rec, env.at(i), st) == Ok::<ValV, ErrV>(m[i].1));
        assert(changes::storable(m[i].1));
        let p = writes::property_from(m[i].1)->Ok_0;
        let next = assoc::bind(acc, m[i].0, p);
        lemma_pattern_props(es, m, i + 1, next, rec, env, st);
        let props = writes::pattern_props(es, i, acc, rec, env, st)->Ok_0;
        assert forall|k: Seq<char>|
            match assoc::position_from(m, k, i) {
                Some(q) => #[trigger] assoc::lookup(props, k) matches Some(w) && changes::stores(
                    w,
                    m[q].1,
                ),
                None => assoc::lookup(props, k) == assoc::lookup(acc, k),
            } by {
            assoc::lemma_lookup_bind(acc, m[i].0, p, k);
            assoc::lemma_position(m, k, i + 1);
            if m[i].0 == k {
                match assoc::position_from(m, k, i + 1) {
                    Some(q) => {
                        assert(m[i].0 != m[q].0);
                    },
                    None => {
                        assert(assoc::lookup(props, k) == assoc::lookup(next, k));
                    },
                }
            }
        }
    }
}

// ---------------------------------------------------------------------------
// CREATE of nodes
// ---------------------------------------------------------------------------

/// A node that a pattern describes.
pub open spec fn made_by(n: Option<NodeV>, id: int, labels: Seq<Seq<char>>, m: RecV) -> bool {
    n matches Some(x) && x.id == id && x.labels == labels && holds_all(x.properties, m)
}

/// CREATE of a node adds one node for each row, with the labels and properties
/// of the pattern, and binds it in that row. What was there stays.
pub proof fn lemma_create_nodes(
    input: Box<PlanV>,
    t: TableV,
    np: NodePatV,
    m: RecV,
    env: EnvV,
    st: StoreV,
)
    requires
        recreate::unconstrained(st),
        constant(np.properties, m),
        assoc::distinct_keys(m),
        changes::all_storable(m),
        t.rows.len() > 0,
        st.nodes.len() + t.rows.len() <= u64::MAX,
    ensures
        ({
            let (r, after) = executor::step(PlanV::CreateNode { input, pattern: np }, t, env, st);
            let n = st.nodes.len() as int;
            &&& after == StoreV { nodes: after.nodes, ..st }
            &&& after.nodes.len() == n + t.rows.len()
            &&& forall|i: int| 0 <= i < n ==> #[trigger] after.nodes[i] == st.nodes[i]
            &&& forall|i: int|
                n <= i < n + t.rows.len() ==> made_by(#[trigger] after.nodes[i], i, np.labels, m)
            &&& r matches Ok(out) && out.rows.len() == t.rows.len() && forall|i: int|
                0 <= i < t.rows.len() ==> match np.variable {
                    Some(x) => changes::only_variable(
                        #[trigger] out.rows[i],
                        t.rows[i],
                        x,
                        ValV::Node(after.nodes[n + i]->0),
                    ),
                    None => out.rows[i] == t.rows[i],
                }
        }),
{
    reveal(executor::step);
    assert(writes::base_rows(t.rows) == t.rows);
    lemma_create_from(t.rows, t.rows, 0, np, m, env, st, st);
}

spec fn created(
    rs: Seq<RecV>,
    now: Seq<RecV>,
    i: int,
    np: NodePatV,
    m: RecV,
    st: StoreV,
    s: StoreV,
) -> bool {
    let n = st.nodes.len() as int;
    &&& s == StoreV { nodes: s.nodes, ..st }
    &&& s.nodes.len() == n + i
    &&& now.len() == rs.len()
    &&& forall|k: int| 0 <= k < n ==> #[trigger] s.nodes[k] == st.nodes[k]
    &&& forall|k: int| n <= k < n + i ==> made_by(#[trigger] s.nodes[k], k, np.labels, m)
    &&& forall|k: int| i <= k < rs.len() ==> #[trigger] now[k] == rs[k]
    &&& forall|k: int|
        0 <= k < i ==> match np.variable {
            Some(x) => changes::only_variable(
                #[trigger] now[k],
                rs[k],
                x,
                ValV::Node(s.nodes[n + k]->0),
            ),
            None => now[k] == rs[k],
        }
}

proof fn lemma_create_from(
    rs: Seq<RecV>,
    now: Seq<RecV>,
    i: int,
    np: NodePatV,
    m: RecV,
    env: EnvV,
    st: StoreV,
    s: StoreV,
)
    requires
        recreate::unconstrained(st),
        constant(np.properties, m),
        assoc::distinct_keys(m),
        changes::all_storable(m),
        st.nodes.len() + rs.len() <= u64::MAX,
        0 <= i <= rs.len(),
        created(rs, now, i, np, m, st, s),
    ensures
        ({
            let (r, after) = writes::create_node_rows(now, i, np, env, s);
            r matches Ok(out) && created(rs, out, rs.len() as int, np, m, st, after)
        }),
    decreases rs.len() - i,
{
    if i < rs.len() {
        let n = st.nodes.len() as int;
        lemma_resolved(np.properties, m, now[i], env.at(i), s);
        let props = writes::resolved(np.properties, now[i], env.at(i), s)->Ok_0;
        recreate::lemma_no_breach_from(s, np.labels, props, 0);
        let after = store::node_created(s, np.labels, props);
        let id = (n + i) as u64;
        assert(store::node_at(after, id) == after.nodes[n + i]);
        let r = writes::create_node_row(now[i], np, env.at(i), s).0->Ok_0;
        if let Some(x) = np.variable {
            lemma_bound(now[i], x, ValV::Node(after.nodes[n + i]->0));
        }
        let next = now.update(i, r);
        assert forall|k: int| n <= k < n + i + 1 implies made_by(
            #[trigger] after.nodes[k],
            k,
            np.labels,
            m,
        ) by {
            if k < n + i {
                assert(after.nodes[k] == s.nodes[k]);
            }
        }
        assert forall|k: int| 0 <= k < n implies #[trigger] after.nodes[k] == st.nodes[k] by {
            assert(after.nodes[k] == s.nodes[k]);
        }
        assert(created(rs, next, i + 1, np, m, st, after)) by {
            assert forall|k: int| 0 <= k < i + 1 implies match np.variable {
                Some(x) => changes::only_variable(
                    #[trigger] next[k],
                    rs[k],
                    x,
                    ValV::Node(after.nodes[n + k]->0),
                ),
                None => next[k] == rs[k],
            } by {
                if k < i {
                    assert(next[k] == now[k]);
                    assert(after.nodes[n + k] == s.nodes[n + k]);
                }
            }
        }
        lemma_create_from(rs, next, i + 1, np, m, env, st, after);
    }
}

proof fn lemma_bound(rec: RecV, x: Seq<char>, v: ValV)
    ensures
        changes::only_variable(assoc::bind(rec, x, v), rec, x, v),
{
    let out = assoc::bind(rec, x, v);
    assoc::lemma_lookup_bind(rec, x, v, x);
    assert forall|y: Seq<char>| y != x implies #[trigger] assoc::lookup(out, y) == assoc::lookup(
        rec,
        y,
    ) by {
        assoc::lemma_lookup_bind(rec, x, v, y);
    }
}

// ---------------------------------------------------------------------------
// CREATE of relationships
// ---------------------------------------------------------------------------

/// CREATE of a relationship between two nodes that are bound adds just that
/// relationship: of the type and with the properties of the pattern, from the
/// node that the arrow leads from to the node that it points at.
pub proof fn lemma_create_relationship(
    input: Box<PlanV>,
    t: TableV,
    start: NodePatV,
    step: ChainV,
    a: NodeV,
    b: NodeV,
    m: RecV,
    env: EnvV,
    st: StoreV,
)
    requires
        store::well_formed(st),
        st.edges.len() < u64::MAX,
        t.rows.len() == 1,
        start.variable is Some && step.node.variable is Some,
        assoc::lookup(t.rows[0], start.variable->0) == Some(ValV::Node(a)),
        assoc::lookup(t.rows[0], step.node.variable->0) == Some(ValV::Node(b)),
        a.id < st.nodes.len() && st.nodes[a.id as int] is Some,
        b.id < st.nodes.len() && st.nodes[b.id as int] is Some,
        step.relationship.rel_types.len() > 0,
        constant(step.relationship.properties, m),
        assoc::distinct_keys(m),
        changes::all_storable(m),
    ensures
        ({
            let (r, after) = executor::step(
                PlanV::CreatePath { input, start, elements: seq![step] },
                t,
                env,
                st,
            );
            let n = st.edges.len() as int;
            let e = after.edges[n]->0;
            &&& after == StoreV { edges: after.edges, ..st }
            &&& after.edges.len() == n + 1
            &&& forall|i: int| 0 <= i < n ==> #[trigger] after.edges[i] == st.edges[i]
            &&& after.edges[n] is Some
            &&& e.id == n
            &&& e.label == step.relationship.rel_types[0]
            &&& holds_all(e.properties, m)
            &&& step.relationship.direction != Direction::Undirected ==> hops::leads(
                e,
                a.id,
                b.id,
                step.relationship.direction,
            )
            &&& step.relationship.direction == Direction::Undirected ==> e.src == a.id && e.dst
                == b.id
            &&& r matches Ok(out) && out.rows.len() == 1 && match step.relationship.variable {
                Some(x) => changes::only_variable(
                    out.rows[0],
                    t.rows[0],
                    x,
                    ValV::Relationship(e),
                ),
                None => out.rows[0] == t.rows[0],
            }
        }),
{
    reveal(executor::step);
    let rec = t.rows[0];
    let inner = env.at(0);
    assert(writes::base_rows(t.rows) == t.rows);
    lemma_resolved(step.relationship.properties, m, rec, inner.at(1).at(0).at(1), st);
    let props = writes::resolved(step.relationship.properties, rec, inner.at(1).at(0).at(1), st)->Ok_0;
    let (from, to) = match step.relationship.direction {
        Direction::Incoming => (b.id, a.id),
        _ => (a.id, b.id),
    };
    let label = step.relationship.rel_types[0];
    let after = store::edge_created(st, label, from, to, props);
    let n = st.edges.len() as int;
    let e = after.edges[n]->0;
    assert(store::edge_at(after, n as u64) == Some(e));
    let out = match step.relationship.variable {
        Some(x) => assoc::bind(rec, x, ValV::Relationship(e)),
        None => rec,
    };
    if let Some(x) = step.relationship.variable {
        lemma_bound(rec, x, ValV::Relationship(e));
    }
    let none: RecV = seq![];
    assert(writes::create_step(rec, a.id, step, none, inner.at(1).at(0), st) == (
        Ok::<(RecV, u64), ErrV>((out, b.id)),
        after,
    ));
    reveal_with_fuel(writes::create_steps, 2);
    assert(writes::create_steps(rec, a.id, seq![step], 0, none, inner.at(1), st) == (
        Ok::<RecV, ErrV>(out),
        after,
    ));
    assert(writes::create_path_row(rec, start, seq![step], none, inner, st) == (
        Ok::<RecV, ErrV>(out),
        after,
    ));
    reveal_with_fuel(writes::create_path_rows, 2);
    assert(writes::create_path_rows(t.rows, 0, start, seq![step], env, st).1 == after);
}

/// A node of a path that no variable is bound to is created with the path.
pub proof fn lemma_create_end(rec: RecV, np: NodePatV, m: RecV, env: EnvV, st: StoreV)
    requires
        st.nodes.len() < u64::MAX,
        constant(np.properties, m),
        assoc::distinct_keys(m),
        changes::all_storable(m),
        np.variable matches Some(x) ==> assoc::lookup(rec, x) is None,
    ensures
        ({
            let (r, after) = writes::node_for(rec, np, env, st);
            let n = st.nodes.len() as int;
            &&& after == StoreV { nodes: after.nodes, ..st }
            &&& after.nodes.len() == n + 1
            &&& forall|i: int| 0 <= i < n ==> #[trigger] after.nodes[i] == st.nodes[i]
            &&& made_by(after.nodes[n], n, np.labels, m)
            &&& r matches Ok(got) && got.1 == n && match np.variable {
                Some(x) => changes::only_variable(got.0, rec, x, ValV::Node(after.nodes[n]->0)),
                None => got.0 == rec,
            }
        }),
{
    lemma_resolved(np.properties, m, rec, env, st);
    let props = writes::resolved(np.properties, rec, env, st)->Ok_0;
    let after = store::node_created(st, np.labels, props);
    let n = st.nodes.len() as int;
    assert(store::node_at(after, n as u64) == after.nodes[n]);
    if let Some(x) = np.variable {
        lemma_bound(rec, x, ValV::Node(after.nodes[n]->0));
    }
}

// ---------------------------------------------------------------------------
// DELETE
// ---------------------------------------------------------------------------

/// A node is among values.
pub open spec fn named_node(vals: Seq<ValV>, id: int) -> bool {
    exists|i: int| 0 <= i < vals.len() && (#[trigger] vals[i] matches ValV::Node(n) && n.id == id)
}

/// The values of rows are nodes that are there.
pub open spec fn all_nodes(vals: Seq<ValV>, st: StoreV) -> bool {
    forall|i: int|
        0 <= i < vals.len() ==> (#[trigger] vals[i] matches ValV::Node(n) && n.id < st.nodes.len()
            && st.nodes[n.id as int] is Some)
}

/// A relationship is at one of the nodes among values.
pub open spec fn at_named(e: Option<crate::value::EdgeV>, vals: Seq<ValV>) -> bool {
    e matches Some(g) && (named_node(vals, g.src as int) || named_node(vals, g.dst as int))
}

/// DETACH DELETE takes away the nodes that it is given, and every relationship
/// at one of them, and nothing else. Without DETACH it does the same where there
/// is no such relationship, and fails where there is one.
pub proof fn lemma_delete_nodes(
    input: Box<PlanV>,
    t: TableV,
    e: ExprV,
    detach: bool,
    vals: Seq<ValV>,
    env: EnvV,
    st: StoreV,
)
    requires
        store::well_formed(st),
        totals::has_values(e, t.rows, vals, st),
        all_nodes(vals, st),
    ensures
        ({
            let (r, after) = executor::step(
                PlanV::DeleteOp { input, expressions: seq![e], detach },
                t,
                env,
                st,
            );
            let free = forall|i: int|
                0 <= i < st.edges.len() ==> !at_named(#[trigger] st.edges[i], vals);
            &&& detach || free ==> {
                &&& r is Ok
                &&& after.nodes.len() == st.nodes.len()
                &&& after.edges.len() == st.edges.len()
                &&& forall|i: int|
                    0 <= i < st.nodes.len() ==> #[trigger] after.nodes[i] == if named_node(vals, i) {
                        None
                    } else {
                        st.nodes[i]
                    }
                &&& forall|i: int|
                    0 <= i < st.edges.len() ==> #[trigger] after.edges[i] == if at_named(
                        st.edges[i],
                        vals,
                    ) {
                        None
                    } else {
                        st.edges[i]
                    }
            }
            &&& !detach && !free ==> r is Err
        }),
{
    reveal(executor::step);
    let none = DoomedV { nodes: seq![], edges: seq![] };
    lemma_doomed(t.rows, 0, e, vals, none, env, st);
    let d = deletes::doomed(t.rows, 0, seq![e], none, env, st)->Ok_0;
    assert(deletes::without_edges(d.edges, 0, st) == (Ok::<(), ErrV>(()), st));
    assert forall|id: u64| d.nodes.contains(id) <==> #[trigger] named_node(vals, id as int) by {}
    assert forall|k: int| 0 <= k < d.nodes.len() implies (#[trigger] d.nodes[k]) < st.nodes.len()
        && st.nodes[d.nodes[k] as int] is Some by {
        assert(d.nodes.contains(d.nodes[k]));
        assert(named_node(vals, d.nodes[k] as int));
    }
    lemma_without(d.nodes, 0, detach, st, st);
    let free = forall|i: int| 0 <= i < st.edges.len() ==> !at_named(#[trigger] st.edges[i], vals);
    if !detach && !free {
        let i = choose|i: int| 0 <= i < st.edges.len() && at_named(#[trigger] st.edges[i], vals);
        let g = st.edges[i]->0;
        assert(touched(st.edges[i], d.nodes, d.nodes.len() as int)) by {
            let id = if named_node(vals, g.src as int) {
                g.src
            } else {
                g.dst
            };
            assert(d.nodes.contains(id));
            let k = choose|k: int| 0 <= k < d.nodes.len() && d.nodes[k] == id;
            assert(store::touches(g, d.nodes[k]));
        }
    }
    assert forall|i: int| 0 <= i < st.edges.len() implies touched(
        #[trigger] st.edges[i],
        d.nodes,
        d.nodes.len() as int,
    ) == at_named(st.edges[i], vals) by {
        if let Some(g) = st.edges[i] {
            if touched(st.edges[i], d.nodes, d.nodes.len() as int) {
                let k = choose|k: int|
                    0 <= k < d.nodes.len() && store::touches(g, #[trigger] d.nodes[k]);
                assert(d.nodes.contains(d.nodes[k]));
                assert(named_node(vals, d.nodes[k] as int));
            }
            if at_named(st.edges[i], vals) {
                let id = if named_node(vals, g.src as int) {
                    g.src
                } else {
                    g.dst
                };
                assert(d.nodes.contains(id));
                let k = choose|k: int| 0 <= k < d.nodes.len() && d.nodes[k] == id;
                assert(store::touches(g, d.nodes[k]));
            }
        }
    }
    if detach || free {
        let after = deletes::without_nodes(d.nodes, 0, detach, st).1;
        assert forall|i: int| 0 <= i < st.nodes.len() implies #[trigger] after.nodes[i]
            == if named_node(vals, i) {
            None
        } else {
            st.nodes[i]
        } by {
            assert(d.nodes.contains(i as u64) <==> named_node(vals, (i as u64) as int));
            if d.nodes.contains(i as u64) {
                let k = choose|k: int| 0 <= k < d.nodes.len() && d.nodes[k] == i as u64;
                assert(gone(i, d.nodes, d.nodes.len() as int));
            }
            if gone(i, d.nodes, d.nodes.len() as int) {
                let k = choose|k: int| 0 <= k < d.nodes.len() && #[trigger] d.nodes[k] == i;
                assert(d.nodes.contains(i as u64));
            }
        }
    }
}

/// One of the first `n` nodes of a list is an end of a relationship.
spec fn touched(e: Option<crate::value::EdgeV>, ids: Seq<u64>, n: int) -> bool {
    e matches Some(g) && exists|k: int|
        0 <= k < n && k < ids.len() && store::touches(g, #[trigger] ids[k])
}

spec fn gone(i: int, ids: Seq<u64>, n: int) -> bool {
    exists|k: int| 0 <= k < n && k < ids.len() && #[trigger] ids[k] == i
}

/// The graph without the first `k` nodes of a list.
spec fn cleared(ids: Seq<u64>, k: int, st: StoreV, s: StoreV) -> bool {
    &&& s.nodes.len() == st.nodes.len()
    &&& s.edges.len() == st.edges.len()
    &&& forall|i: int|
        0 <= i < st.nodes.len() ==> #[trigger] s.nodes[i] == if gone(i, ids, k) {
            None
        } else {
            st.nodes[i]
        }
    &&& forall|i: int|
        0 <= i < st.edges.len() ==> #[trigger] s.edges[i] == if touched(st.edges[i], ids, k) {
            None
        } else {
            st.edges[i]
        }
}

proof fn lemma_without(ids: Seq<u64>, k: int, detach: bool, st: StoreV, s: StoreV)
    requires
        0 <= k <= ids.len(),
        forall|a: int, b: int| 0 <= a < b < ids.len() ==> #[trigger] ids[a] != #[trigger] ids[b],
        forall|a: int|
            0 <= a < ids.len() ==> (#[trigger] ids[a]) < st.nodes.len() && st.nodes[ids[a] as int]
                is Some,
        cleared(ids, k, st, s),
        detach || forall|i: int|
            0 <= i < st.edges.len() ==> !touched(#[trigger] st.edges[i], ids, k),
    ensures
        ({
            let (r, after) = deletes::without_nodes(ids, k, detach, s);
            let free = forall|i: int|
                0 <= i < st.edges.len() ==> !touched(
                    #[trigger] st.edges[i],
                    ids,
                    ids.len() as int,
                );
            &&& detach || free ==> r is Ok && cleared(ids, ids.len() as int, st, after)
            &&& !detach && !free ==> r is Err
        }),
    decreases ids.len() - k,
{
    if k < ids.len() {
        let id = ids[k];
        assert(!gone(id as int, ids, k));
        assert(s.nodes[id as int] == st.nodes[id as int]);
        assert forall|i: int| 0 <= i < st.edges.len() implies (touched(
            #[trigger] st.edges[i],
            ids,
            k + 1,
        ) <==> touched(st.edges[i], ids, k) || (st.edges[i] matches Some(g) && store::touches(
            g,
            id,
        ))) by {
            if let Some(g) = st.edges[i] {
                if touched(st.edges[i], ids, k) {
                    let a = choose|a: int|
                        0 <= a < k && a < ids.len() && store::touches(g, #[trigger] ids[a]);
                    assert(store::touches(g, ids[a]));
                }
                if store::touches(g, id) {
                    assert(store::touches(g, ids[k]));
                }
            }
        }
        if !detach && store::has_relationships(s, id) {
            let i = choose|i: int|
                0 <= i < s.edges.len() && (#[trigger] s.edges[i] matches Some(g) && store::touches(
                    g,
                    id,
                ));
            assert(s.edges[i] == st.edges[i]);
            assert(touched(st.edges[i], ids, ids.len() as int)) by {
                assert(store::touches(st.edges[i]->0, ids[k]));
            }
        } else {
            let next = store::node_deleted(s, id);
            assert forall|i: int| 0 <= i < st.nodes.len() implies #[trigger] next.nodes[i] == if gone(
                i,
                ids,
                k + 1,
            ) {
                None
            } else {
                st.nodes[i]
            } by {
                assert(s.nodes[i] == if gone(i, ids, k) {
                    None
                } else {
                    st.nodes[i]
                });
                if i == id {
                    assert(ids[k] == i);
                }
                if gone(i, ids, k) {
                    let a = choose|a: int| 0 <= a < k && a < ids.len() && #[trigger] ids[a] == i;
                    assert(ids[a] == i);
                }
            }
            assert forall|i: int| 0 <= i < st.edges.len() implies #[trigger] next.edges[i]
                == if touched(st.edges[i], ids, k + 1) {
                None
            } else {
                st.edges[i]
            } by {
                assert(s.edges[i] == if touched(st.edges[i], ids, k) {
                    None
                } else {
                    st.edges[i]
                });
            }
            if !detach {
                assert forall|i: int| 0 <= i < st.edges.len() implies !touched(
                    #[trigger] st.edges[i],
                    ids,
                    k + 1,
                ) by {
                    assert(s.edges[i] == st.edges[i]);
                }
            }
            lemma_without(ids, k + 1, detach, st, next);
        }
    }
}

proof fn lemma_doomed(
    rs: Seq<RecV>,
    i: int,
    e: ExprV,
    vals: Seq<ValV>,
    d: DoomedV,
    env: EnvV,
    st: StoreV,
)
    requires
        totals::has_values(e, rs, vals, st),
        all_nodes(vals, st),
        0 <= i <= rs.len(),
        d.edges.len() == 0,
        d.nodes.no_duplicates(),
        forall|id: u64| #[trigger]
            d.nodes.contains(id) <==> named_node(vals.take(i), id as int),
    ensures
        deletes::doomed(rs, i, seq![e], d, env, st) matches Ok(out) && out.edges.len() == 0
            && out.nodes.no_duplicates() && forall|id: u64| #[trigger]
            out.nodes.contains(id) <==> named_node(vals, id as int),
    decreases rs.len() - i,
{
    if i < rs.len() {
        assert(semantics::eval(e, rs[i], env.at(i).at(0), st) == Ok::<ValV, ErrV>(vals[i]));
        let n = vals[i]->Node_0;
        let next = deletes::with_doomed(d, vals[i]);
        reveal_with_fuel(deletes::doomed_in, 2);
        assert(deletes::doomed_in(seq![e], 0, rs[i], d, env.at(i), st) == Ok::<DoomedV, ErrV>(next));
        assert forall|id: u64| #[trigger]
            next.nodes.contains(id) <==> named_node(vals.take(i + 1), id as int) by {
            let a = vals.take(i);
            let b = vals.take(i + 1);
            if named_node(a, id as int) {
                let k = choose|k: int|
                    0 <= k < a.len() && (#[trigger] a[k] matches ValV::Node(x) && x.id == id);
                assert(b[k] == a[k]);
            }
            if id == n.id {
                assert(b[i] == vals[i]);
                if !d.nodes.contains(id) {
                    assert(next.nodes[d.nodes.len() as int] == id);
                }
            }
            if named_node(b, id as int) && id != n.id {
                let k = choose|k: int|
                    0 <= k < b.len() && (#[trigger] b[k] matches ValV::Node(x) && x.id == id);
                assert(a[k] == b[k]);
            }
            if d.nodes.contains(id) && !d.nodes.contains(n.id) {
                let k = choose|k: int| 0 <= k < d.nodes.len() && d.nodes[k] == id;
                assert(next.nodes[k] == id);
            }
            if next.nodes.contains(id) && id != n.id {
                let k = choose|k: int| 0 <= k < next.nodes.len() && next.nodes[k] == id;
                assert(d.nodes[k] == id);
                assert(d.nodes.contains(id));
            }
        }
        lemma_doomed(rs, i + 1, e, vals, next, env, st);
    } else {
        assert(vals.take(i) =~= vals);
    }
}

/// A relationship is among values.
pub open spec fn named_edge(vals: Seq<ValV>, id: int) -> bool {
    exists|i: int|
        0 <= i < vals.len() && (#[trigger] vals[i] matches ValV::Relationship(g) && g.id == id)
}

/// The values of rows are relationships that are there.
pub open spec fn all_edges(vals: Seq<ValV>, st: StoreV) -> bool {
    forall|i: int|
        0 <= i < vals.len() ==> (#[trigger] vals[i] matches ValV::Relationship(g) && g.id
            < st.edges.len() && st.edges[g.id as int] is Some)
}

/// A row holds no relationship that is among values.
pub open spec fn without_named(rec: RecV, vals: Seq<ValV>) -> bool {
    forall|j: int|
        0 <= j < rec.len() ==> ((#[trigger] rec[j]).1 matches ValV::Relationship(g) ==> !named_edge(
            vals,
            g.id as int,
        ))
}

/// DELETE takes away the relationships that it is given and nothing else: every
/// node stays, and the rows no longer hold what is gone.
pub proof fn lemma_delete_relationships(
    input: Box<PlanV>,
    t: TableV,
    e: ExprV,
    detach: bool,
    vals: Seq<ValV>,
    env: EnvV,
    st: StoreV,
)
    requires
        totals::has_values(e, t.rows, vals, st),
        all_edges(vals, st),
    ensures
        ({
            let (r, after) = executor::step(
                PlanV::DeleteOp { input, expressions: seq![e], detach },
                t,
                env,
                st,
            );
            &&& after == StoreV { edges: after.edges, ..st }
            &&& after.edges.len() == st.edges.len()
            &&& forall|i: int|
                0 <= i < st.edges.len() ==> #[trigger] after.edges[i] == if named_edge(vals, i) {
                    None
                } else {
                    st.edges[i]
                }
            &&& r matches Ok(out) && out.rows.len() == t.rows.len() && forall|k: int|
                0 <= k < out.rows.len() ==> without_named(#[trigger] out.rows[k], vals)
        }),
{
    reveal(executor::step);
    let none = DoomedV { nodes: seq![], edges: seq![] };
    lemma_doomed_edges(t.rows, 0, e, vals, none, env, st);
    let d = deletes::doomed(t.rows, 0, seq![e], none, env, st)->Ok_0;
    assert forall|k: int| 0 <= k < d.edges.len() implies (#[trigger] d.edges[k]) < st.edges.len()
        && st.edges[d.edges[k] as int] is Some by {
        assert(d.edges.contains(d.edges[k]));
        assert(named_edge(vals, d.edges[k] as int));
    }
    lemma_without_edges(d.edges, 0, st, st);
    let after = deletes::without_edges(d.edges, 0, st).1;
    assert(deletes::without_nodes(d.nodes, 0, detach, after) == (Ok::<(), ErrV>(()), after));
    assert forall|i: int| 0 <= i < st.edges.len() implies #[trigger] after.edges[i] == if named_edge(
        vals,
        i,
    ) {
        None
    } else {
        st.edges[i]
    } by {
        if named_edge(vals, i) {
            assert(d.edges.contains(i as u64));
            let k = choose|k: int| 0 <= k < d.edges.len() && d.edges[k] == i as u64;
            assert(gone(i, d.edges, d.edges.len() as int));
        }
        if gone(i, d.edges, d.edges.len() as int) {
            let k = choose|k: int| 0 <= k < d.edges.len() && #[trigger] d.edges[k] == i;
            assert(d.edges.contains(d.edges[k]));
        }
    }
    let out = executor::step(PlanV::DeleteOp { input, expressions: seq![e], detach }, t, env, st).0->Ok_0;
    assert forall|k: int| 0 <= k < out.rows.len() implies without_named(
        #[trigger] out.rows[k],
        vals,
    ) by {
        lemma_survivors(t.rows[k], 0, seq![], d, vals);
    }
}

proof fn lemma_survivors(rec: RecV, i: int, acc: RecV, d: DoomedV, vals: Seq<ValV>)
    requires
        0 <= i <= rec.len(),
        without_named(acc, vals),
        forall|id: u64| #[trigger] d.edges.contains(id) <==> named_edge(vals, id as int),
    ensures
        without_named(deletes::surviving(rec, i, acc, d), vals),
    decreases rec.len() - i,
{
    if i < rec.len() {
        let next = if deletes::survives(rec[i].1, d) {
            acc.push(rec[i])
        } else {
            acc
        };
        assert(without_named(next, vals)) by {
            assert forall|j: int| 0 <= j < next.len() implies ((
            #[trigger] next[j]).1 matches ValV::Relationship(g) ==> !named_edge(
                vals,
                g.id as int,
            )) by {
                if j < acc.len() {
                    assert(next[j] == acc[j]);
                }
            }
        }
        lemma_survivors(rec, i + 1, next, d, vals);
    }
}

proof fn lemma_without_edges(ids: Seq<u64>, k: int, st: StoreV, s: StoreV)
    requires
        0 <= k <= ids.len(),
        ids.no_duplicates(),
        forall|a: int|
            0 <= a < ids.len() ==> (#[trigger] ids[a]) < st.edges.len() && st.edges[ids[a] as int]
                is Some,
        s == (StoreV { edges: s.edges, ..st }),
        s.edges.len() == st.edges.len(),
        forall|i: int|
            0 <= i < st.edges.len() ==> #[trigger] s.edges[i] == if gone(i, ids, k) {
                None
            } else {
                st.edges[i]
            },
    ensures
        ({
            let (r, after) = deletes::without_edges(ids, k, s);
            &&& r is Ok
            &&& after == (StoreV { edges: after.edges, ..st })
            &&& after.edges.len() == st.edges.len()
            &&& forall|i: int|
                0 <= i < st.edges.len() ==> #[trigger] after.edges[i] == if gone(
                    i,
                    ids,
                    ids.len() as int,
                ) {
                    None
                } else {
                    st.edges[i]
                }
        }),
    decreases ids.len() - k,
{
    if k < ids.len() {
        let id = ids[k];
        assert(!gone(id as int, ids, k));
        assert(s.edges[id as int] == st.edges[id as int]);
        assert(store::edge_at(s, id) is Some);
        let next = store::edge_deleted(s, id);
        assert forall|i: int| 0 <= i < st.edges.len() implies #[trigger] next.edges[i] == if gone(
            i,
            ids,
            k + 1,
        ) {
            None
        } else {
            st.edges[i]
        } by {
            assert(s.edges[i] == if gone(i, ids, k) {
                None
            } else {
                st.edges[i]
            });
            if i == id {
                assert(ids[k] == i);
            }
            if gone(i, ids, k) {
                let a = choose|a: int| 0 <= a < k && a < ids.len() && #[trigger] ids[a] == i;
                assert(ids[a] == i);
            }
        }
        lemma_without_edges(ids, k + 1, st, next);
    }
}

proof fn lemma_doomed_edges(
    rs: Seq<RecV>,
    i: int,
    e: ExprV,
    vals: Seq<ValV>,
    d: DoomedV,
    env: EnvV,
    st: StoreV,
)
    requires
        totals::has_values(e, rs, vals, st),
        all_edges(vals, st),
        0 <= i <= rs.len(),
        d.nodes.len() == 0,
        d.edges.no_duplicates(),
        forall|id: u64| #[trigger]
            d.edges.contains(id) <==> named_edge(vals.take(i), id as int),
    ensures
        deletes::doomed(rs, i, seq![e], d, env, st) matches Ok(out) && out.nodes.len() == 0
            && out.edges.no_duplicates() && forall|id: u64| #[trigger]
            out.edges.contains(id) <==> named_edge(vals, id as int),
    decreases rs.len() - i,
{
    if i < rs.len() {
        assert(semantics::eval(e, rs[i], env.at(i).at(0), st) == Ok::<ValV, ErrV>(vals[i]));
        let n = vals[i]->Relationship_0;
        let next = deletes::with_doomed(d, vals[i]);
        reveal_with_fuel(deletes::doomed_in, 2);
        assert(deletes::doomed_in(seq![e], 0, rs[i], d, env.at(i), st) == Ok::<DoomedV, ErrV>(next));
        assert forall|id: u64| #[trigger]
            next.edges.contains(id) <==> named_edge(vals.take(i + 1), id as int) by {
            let a = vals.take(i);
            let b = vals.take(i + 1);
            if named_edge(a, id as int) {
                let k = choose|k: int|
                    0 <= k < a.len() && (#[trigger] a[k] matches ValV::Relationship(x) && x.id
                        == id);
                assert(b[k] == a[k]);
            }
            if id == n.id {
                assert(b[i] == vals[i]);
                if !d.edges.contains(id) {
                    assert(next.edges[d.edges.len() as int] == id);
                }
            }
            if named_edge(b, id as int) && id != n.id {
                let k = choose|k: int|
                    0 <= k < b.len() && (#[trigger] b[k] matches ValV::Relationship(x) && x.id
                        == id);
                assert(a[k] == b[k]);
            }
            if d.edges.contains(id) && !d.edges.contains(n.id) {
                let k = choose|k: int| 0 <= k < d.edges.len() && d.edges[k] == id;
                assert(next.edges[k] == id);
            }
            if next.edges.contains(id) && id != n.id {
                let k = choose|k: int| 0 <= k < next.edges.len() && next.edges[k] == id;
                assert(d.edges[k] == id);
                assert(d.edges.contains(id));
            }
        }
        lemma_doomed_edges(rs, i + 1, e, vals, next, env, st);
    } else {
        assert(vals.take(i) =~= vals);
    }
}

} // verus!
