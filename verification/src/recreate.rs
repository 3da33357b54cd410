//! The query that a graph is exported as creates the graph again.
use crate::assoc;
use crate::ast::{ChainV, ClauseV, ExprV, LitV, PartV, PatternV, UnaryOp};
use crate::error::ErrV;
use crate::executor;
use crate::exported::{self, PieceV};
use crate::functions;
use crate::graph;
use crate::ops;
use crate::outside::AnswersV;
use crate::plan::PlanV;
use crate::planner;
use crate::relex;
use crate::reparse;
use crate::rows::TableV;
use crate::semantics::{self, EnvV};
use crate::store::{self, StoreV};
use crate::text;
use crate::value::{EdgeV, NodeV, PropV, PropsV, RecV, ValV};
use crate::writes;
use vstd::prelude::*;

verus! {

// ---------------------------------------------------------------------------
// Properties
// ---------------------------------------------------------------------------

/// A property as a value.
pub open spec fn as_value(v: PropV) -> ValV {
    match v {
        PropV::Str(s) => ValV::Str(s),
        PropV::Int(i) => ValV::Integer(i),
        PropV::Float(b) => ValV::Float(b),
        PropV::Bool(b) => ValV::Boolean(b),
    }
}

proof fn lemma_literal_value(l: LitV, v: ValV, rec: RecV, env: EnvV, st: StoreV)
    requires
        semantics::eval_literal(l, rec, env, st) == Ok::<ValV, ErrV>(v),
    ensures
        semantics::eval(ExprV::Literal(l), rec, env, st) == Ok::<ValV, ErrV>(v),
{
    assert(semantics::eval_parts(ExprV::Literal(l), rec, env, st) == Ok::<ValV, ErrV>(v));
}

proof fn lemma_negative_value(l: LitV, v: ValV, rec: RecV, env: EnvV, st: StoreV)
    requires
        semantics::eval_literal(l, rec, env.at(0), st) == Ok::<ValV, ErrV>(v),
    ensures
        semantics::eval(reparse::negative(l), rec, env, st) == Ok::<ValV, ErrV>(
            ops::unary_op(UnaryOp::Neg, v),
        ),
{
    lemma_literal_value(l, v, rec, env.at(0), st);
    assert(semantics::eval_parts(reparse::negative(l), rec, env, st) == Ok::<ValV, ErrV>(
        ops::unary_op(UnaryOp::Neg, v),
    ));
}

/// The text of a property has the property as its value.
proof fn lemma_value(ans: AnswersV, v: PropV, rec: RecV, env: EnvV, st: StoreV)
    requires
        exported::writable(ans, v),
        env.answers == ans,
    ensures
        semantics::eval(reparse::value_expr(ans, v), rec, env, st) == Ok::<ValV, ErrV>(
            as_value(v),
        ),
        writes::property_from(as_value(v)) == Ok::<PropV, ErrV>(v),
{
    reveal(ops::unary_op);
    match v {
        PropV::Str(s) => lemma_literal_value(LitV::Str(s), ValV::Str(s), rec, env, st),
        PropV::Int(i) => {
            if i < 0 {
                let n = (-i) as i64;
                lemma_negative_value(LitV::Integer(n), ValV::Integer(n), rec, env, st);
            } else {
                lemma_literal_value(LitV::Integer(i), ValV::Integer(i), rec, env, st);
            }
        },
        PropV::Float(b) => {
            let t = exported::value_text(ans, v);
            let m = exported::unsigned_text(t);
            let x = functions::parsed_number(ans, m)->Ok_0;
            if t.len() > 0 && t[0] == '-' {
                lemma_negative_value(LitV::Float(m), x, rec, env, st);
            } else {
                lemma_literal_value(LitV::Float(m), x, rec, env, st);
            }
        },
        PropV::Bool(b) => lemma_literal_value(LitV::Boolean(b), ValV::Boolean(b), rec, env, st),
    }
}

/// The first `n` of some properties, bound one after another.
pub open spec fn rebuilt(ps: PropsV, n: int) -> PropsV
    decreases n,
{
    if n <= 0 {
        seq![]
    } else {
        assoc::bind(rebuilt(ps, n - 1), ps[n - 1].0, ps[n - 1].1)
    }
}

/// Properties after they were written and read.
pub open spec fn kept(props: PropsV) -> PropsV {
    rebuilt(exported::pairs(props), exported::pairs(props).len() as int)
}

/// The same keys are bound to the same values.
pub open spec fn same_props(a: PropsV, b: PropsV) -> bool {
    forall|k: Seq<char>| #[trigger] assoc::lookup(a, k) == assoc::lookup(b, k)
}

proof fn lemma_rebuilt(props: PropsV, n: int, k: Seq<char>)
    requires
        0 <= n <= exported::pairs(props).len(),
    ensures
        assoc::lookup(rebuilt(exported::pairs(props), n), k) == (if exists|i: int|
            0 <= i < n && (#[trigger] exported::pairs(props)[i]).0 == k {
            assoc::lookup(props, k)
        } else {
            None
        }),
    decreases n,
{
    let ps = exported::pairs(props);
    exported::lemma_pairs(props);
    if n > 0 {
        lemma_rebuilt(props, n - 1, k);
        assoc::lemma_lookup_bind(rebuilt(ps, n - 1), ps[n - 1].0, ps[n - 1].1, k);
        if ps[n - 1].0 == k {
            assert(exists|i: int| 0 <= i < n && (#[trigger] ps[i]).0 == k);
        } else {
            assert((exists|i: int| 0 <= i < n && (#[trigger] ps[i]).0 == k) == (exists|i: int|
                0 <= i < n - 1 && (#[trigger] ps[i]).0 == k));
        }
    }
}

/// Writing and reading properties keeps them.
proof fn lemma_kept(props: PropsV)
    ensures
        same_props(kept(props), props),
{
    exported::lemma_pairs(props);
    assert forall|k: Seq<char>| #[trigger] assoc::lookup(kept(props), k) == assoc::lookup(
        props,
        k,
    ) by {
        lemma_rebuilt(props, exported::pairs(props).len() as int, k);
    }
}

proof fn lemma_resolved_from(ans: AnswersV, ps: PropsV, i: int, rec: RecV, env: EnvV, st: StoreV)
    requires
        0 <= i <= ps.len(),
        forall|j: int| 0 <= j < ps.len() ==> exported::writable(ans, (#[trigger] ps[j]).1),
        env.answers == ans,
    ensures
        writes::pattern_props(
            reparse::entry_exprs(ans, ps),
            i,
            rebuilt(ps, i),
            rec,
            env,
            st,
        ) == Ok::<PropsV, ErrV>(rebuilt(ps, ps.len() as int)),
    decreases ps.len() - i,
{
    if i < ps.len() {
        assert(exported::writable(ans, ps[i].1));
        lemma_value(ans, ps[i].1, rec, env.at(i), st);
        lemma_resolved_from(ans, ps, i + 1, rec, env, st);
    }
}

proof fn lemma_resolved(ans: AnswersV, props: PropsV, rec: RecV, env: EnvV, st: StoreV)
    requires
        exported::writable_props(ans, props),
        env.answers == ans,
    ensures
        writes::resolved(
            reparse::props_dict(ans, exported::pairs(props)),
            rec,
            env,
            st,
        ) == Ok::<PropsV, ErrV>(kept(props)),
{
    reparse::lemma_writable_pairs(ans, props);
    lemma_resolved_from(ans, exported::pairs(props), 0, rec, env, st);
}

// ---------------------------------------------------------------------------
// Constraints
// ---------------------------------------------------------------------------

/// A graph without constraints.
pub open spec fn unconstrained(st: StoreV) -> bool {
    &&& st.unique.len() == 0
    &&& st.not_null.len() == 0
    &&& st.node_keys.len() == 0
    &&& st.prop_types.len() == 0
}

proof fn lemma_no_unique(st: StoreV, label: Seq<char>, props: PropsV, i: int)
    requires
        unconstrained(st),
        0 <= i,
    ensures
        writes::unique_breach_of(st, label, props, i) is None,
    decreases props.len() - i,
{
    if i < props.len() {
        lemma_no_unique(st, label, props, i + 1);
    }
}

pub proof fn lemma_no_breach_from(st: StoreV, labels: Seq<Seq<char>>, props: PropsV, i: int)
    requires
        unconstrained(st),
        0 <= i,
    ensures
        writes::unique_breaches(st, labels, i, props) is None,
        store::not_null_breach(st.not_null, labels, props, i) is None,
        store::node_key_breach(st, labels, props, i) is None,
        store::type_breach(st.prop_types, labels, props, i) is None,
    decreases labels.len() - i,
{
    if i < labels.len() {
        lemma_no_unique(st, labels[i], props, 0);
        lemma_no_breach_from(st, labels, props, i + 1);
    }
}

// ---------------------------------------------------------------------------
// Nodes and relationships
// ---------------------------------------------------------------------------

/// The place of a node in a list.
pub open spec fn rank(ns: Seq<NodeV>, id: u64) -> int {
    choose|i: int| 0 <= i < ns.len() && (#[trigger] ns[i]).id == id
}

/// A list has a node with an id.
pub open spec fn listed(ns: Seq<NodeV>, id: u64) -> bool {
    exists|i: int| 0 <= i < ns.len() && (#[trigger] ns[i]).id == id
}

/// A list has no two nodes with one id, and the nodes can be numbered.
pub open spec fn told_apart(ns: Seq<NodeV>) -> bool {
    &&& ns.len() <= u64::MAX
    &&& forall|i: int, j: int|
        0 <= i < ns.len() && 0 <= j < ns.len() && i != j ==> (#[trigger] ns[i]).id != (
        #[trigger] ns[j]).id
}

/// The `i`-th node that the query creates.
pub open spec fn made_node(ns: Seq<NodeV>, i: int) -> NodeV {
    NodeV { id: i as u64, labels: ns[i].labels, properties: kept(ns[i].properties) }
}

/// The `i`-th relationship that the query creates.
pub open spec fn made_edge(ns: Seq<NodeV>, es: Seq<EdgeV>, i: int) -> EdgeV {
    EdgeV {
        id: i as u64,
        label: es[i].label,
        src: rank(ns, es[i].src) as u64,
        dst: rank(ns, es[i].dst) as u64,
        properties: kept(es[i].properties),
    }
}

/// The graph after the first `n` nodes and `m` relationships were created.
pub open spec fn made(ns: Seq<NodeV>, es: Seq<EdgeV>, n: int, m: int) -> StoreV {
    StoreV {
        nodes: Seq::new(n as nat, |i: int| Some(made_node(ns, i))),
        edges: Seq::new(m as nat, |i: int| Some(made_edge(ns, es, i))),
        ..store::empty_store()
    }
}

/// The row after the first `n` nodes were created.
pub open spec fn made_row(ns: Seq<NodeV>, n: int) -> RecV {
    Seq::new(
        n as nat,
        |i: int| (graph::exported_variable(ns[i].id), ValV::Node(made_node(ns, i))),
    )
}

proof fn lemma_variable_tells(a: u64, b: u64)
    requires
        graph::exported_variable(a) == graph::exported_variable(b),
    ensures
        a == b,
{
    let x = text::nat_text(a as nat);
    let y = text::nat_text(b as nat);
    assert(graph::exported_variable(a).skip("_"@.len() as int) =~= x);
    assert(graph::exported_variable(b).skip("_"@.len() as int) =~= y);
    relex::lemma_nat_text_tells(a as nat, b as nat);
}

/// The row binds the variable of a node to the node that was created for it.
proof fn lemma_bound(ns: Seq<NodeV>, n: int, id: u64)
    requires
        told_apart(ns),
        n == ns.len(),
        listed(ns, id),
    ensures
        0 <= rank(ns, id) < ns.len(),
        assoc::lookup(made_row(ns, n), graph::exported_variable(id)) == Some(
            ValV::Node(made_node(ns, rank(ns, id))),
        ),
{
    let r = rank(ns, id);
    let row = made_row(ns, n);
    let v = graph::exported_variable(id);
    assoc::lemma_position(row, v, 0);
    assert(row[r].0 == v);
    let p = assoc::position(row, v)->0;
    lemma_variable_tells(ns[p].id, id);
    assert(p == r);
}

/// The variable of a node is new as long as the node was not created.
proof fn lemma_unbound(ns: Seq<NodeV>, n: int)
    requires
        told_apart(ns),
        0 <= n < ns.len(),
    ensures
        assoc::bind(
            made_row(ns, n),
            graph::exported_variable(ns[n].id),
            ValV::Node(made_node(ns, n)),
        ) == made_row(ns, n + 1),
{
    let row = made_row(ns, n);
    let v = graph::exported_variable(ns[n].id);
    assoc::lemma_position(row, v, 0);
    if assoc::position(row, v) is Some {
        let p = assoc::position(row, v)->0;
        assert(row[p].0 == graph::exported_variable(ns[p].id));
        lemma_variable_tells(ns[p].id, ns[n].id);
    }
    assert(row.push((v, ValV::Node(made_node(ns, n)))) =~= made_row(ns, n + 1));
}

/// One node more.
proof fn lemma_node_made(
    ans: AnswersV,
    ns: Seq<NodeV>,
    es: Seq<EdgeV>,
    n: int,
    t: TableV,
    env: EnvV,
)
    requires
        told_apart(ns),
        0 <= n < ns.len(),
        exported::writable_node(ans, ns[n]),
        env.answers == ans,
        t.rows == seq![made_row(ns, n)],
    ensures
        ({
            let r = writes::created_nodes(
                t,
                reparse::node_pattern(ans, ns[n]),
                env,
                made(ns, es, n, 0),
            );
            r.1 == made(ns, es, n + 1, 0) && (r.0 matches Ok(u) && u.rows == seq![
                made_row(ns, n + 1),
            ])
        }),
{
    let st = made(ns, es, n, 0);
    let np = reparse::node_pattern(ans, ns[n]);
    let rec = made_row(ns, n);
    let props = kept(ns[n].properties);
    lemma_resolved(ans, ns[n].properties, rec, env.at(0), st);
    lemma_no_breach_from(st, np.labels, props, 0);
    let after = store::node_created(st, np.labels, props);
    assert(after.nodes =~= made(ns, es, n + 1, 0).nodes);
    assert(after.edges =~= made(ns, es, n + 1, 0).edges);
    assert(after == made(ns, es, n + 1, 0));
    assert(store::node_at(after, n as u64) == Some(made_node(ns, n)));
    lemma_unbound(ns, n);
    assert(writes::create_node_row(rec, np, env.at(0), st) == (
        Ok::<RecV, ErrV>(made_row(ns, n + 1)),
        after,
    ));
    let rows = seq![rec];
    assert(rows.update(0, made_row(ns, n + 1)) =~= seq![made_row(ns, n + 1)]);
    assert(writes::create_node_rows(seq![made_row(ns, n + 1)], 1, np, env, after) == (
        Ok::<Seq<RecV>, ErrV>(seq![made_row(ns, n + 1)]),
        after,
    ));
    assert(writes::create_node_rows(rows, 0, np, env, st) == (
        Ok::<Seq<RecV>, ErrV>(seq![made_row(ns, n + 1)]),
        after,
    ));
}

/// One relationship more.
proof fn lemma_edge_made(
    ans: AnswersV,
    ns: Seq<NodeV>,
    es: Seq<EdgeV>,
    m: int,
    t: TableV,
    env: EnvV,
)
    requires
        told_apart(ns),
        0 <= m < es.len(),
        es.len() <= u64::MAX,
        exported::writable_edge(ans, es[m]),
        listed(ns, es[m].src),
        listed(ns, es[m].dst),
        env.answers == ans,
        t.rows == seq![made_row(ns, ns.len() as int)],
    ensures
        ({
            let n = ns.len() as int;
            let r = writes::created_paths(
                t,
                reparse::named_pattern(es[m].src),
                seq![
                    ChainV {
                        relationship: reparse::edge_pattern(ans, es[m]),
                        node: reparse::named_pattern(es[m].dst),
                    },
                ],
                env,
                made(ns, es, n, m),
            );
            r.1 == made(ns, es, n, m + 1) && (r.0 matches Ok(u) && u.rows == t.rows)
        }),
{
    let n = ns.len() as int;
    let st = made(ns, es, n, m);
    let e = es[m];
    let rec = made_row(ns, n);
    let start = reparse::named_pattern(e.src);
    let end = reparse::named_pattern(e.dst);
    let step = ChainV { relationship: reparse::edge_pattern(ans, e), node: end };
    let chain = seq![step];
    let props = kept(e.properties);
    let src = rank(ns, e.src) as u64;
    let dst = rank(ns, e.dst) as u64;
    let env1 = env.at(0);
    let given: RecV = seq![];
    let env2 = env1.at(1).at(0);
    lemma_bound(ns, n, e.src);
    lemma_bound(ns, n, e.dst);
    lemma_resolved(ans, e.properties, rec, env2.at(1), st);
    assert(writes::node_for(rec, start, env1.at(0), st) == (
        Ok::<(RecV, u64), ErrV>((rec, src)),
        st,
    ));
    assert(writes::node_for(rec, end, env2.at(0), st) == (Ok::<(RecV, u64), ErrV>((rec, dst)), st));
    assert(store::edge_refusal(st, src, dst) is None);
    let after = store::edge_created(st, e.label, src, dst, props);
    assert(after.edges =~= made(ns, es, n, m + 1).edges);
    assert(after == made(ns, es, n, m + 1));
    assert(writes::create_step(rec, src, step, given, env2, st) == (
        Ok::<(RecV, u64), ErrV>((rec, dst)),
        after,
    ));
    assert(writes::create_steps(rec, dst, chain, 1, given, env1.at(1), after) == (
        Ok::<RecV, ErrV>(rec),
        after,
    ));
    assert(writes::create_steps(rec, src, chain, 0, given, env1.at(1), st) == (
        Ok::<RecV, ErrV>(rec),
        after,
    ));
    assert(writes::create_path_row(rec, start, chain, given, env1, st) == (
        Ok::<RecV, ErrV>(rec),
        after,
    ));
    let rows = seq![rec];
    assert(rows.update(0, rec) =~= rows);
    assert(writes::create_path_rows(rows, 1, start, chain, env, after) == (
        Ok::<Seq<RecV>, ErrV>(rows),
        after,
    ));
    assert(writes::create_path_rows(rows, 0, start, chain, env, st) == (
        Ok::<Seq<RecV>, ErrV>(rows),
        after,
    ));
}

// ---------------------------------------------------------------------------
// The run
// ---------------------------------------------------------------------------

/// The parts of the query: the nodes, then the relationships.
pub open spec fn pieces(ns: Seq<NodeV>, es: Seq<EdgeV>) -> Seq<PieceV> {
    Seq::new(
        ns.len() + es.len(),
        |i: int|
            if i < ns.len() {
                PieceV::Node(ns[i])
            } else {
                PieceV::Edge(es[i - ns.len()])
            },
    )
}

/// The plan that creates the first `n` parts.
pub open spec fn built(ps: Seq<PartV>, n: int) -> PlanV
    decreases n,
{
    if n <= 0 {
        PlanV::EmptyRow
    } else {
        match ps[n - 1].element {
            PatternV::Node(np) => PlanV::CreateNode {
                input: Box::new(built(ps, n - 1)),
                pattern: np,
            },
            PatternV::Chain { start, elements } => PlanV::CreatePath {
                input: Box::new(built(ps, n - 1)),
                start,
                elements,
            },
            _ => built(ps, n - 1),
        }
    }
}

proof fn lemma_built(ps: Seq<PartV>, i: int)
    requires
        0 <= i <= ps.len(),
        forall|j: int|
            0 <= j < ps.len() ==> (#[trigger] ps[j]).element is Node || ps[j].element is Chain,
    ensures
        planner::create_parts(ps, i, built(ps, i)) == Ok::<PlanV, ErrV>(
            built(ps, ps.len() as int),
        ),
    decreases ps.len() - i,
{
    if i < ps.len() {
        assert(ps[i].element is Node || ps[i].element is Chain);
        lemma_built(ps, i + 1);
    }
}

/// The parts can be created one after another.
pub open spec fn creatable(ans: AnswersV, ns: Seq<NodeV>, es: Seq<EdgeV>) -> bool {
    &&& told_apart(ns)
    &&& es.len() <= u64::MAX
    &&& forall|i: int| 0 <= i < ns.len() ==> exported::writable_node(ans, #[trigger] ns[i])
    &&& forall|i: int|
        0 <= i < es.len() ==> exported::writable_edge(ans, #[trigger] es[i]) && listed(
            ns,
            es[i].src,
        ) && listed(ns, es[i].dst)
}

proof fn lemma_step(p: PlanV, t: TableV, env: EnvV, st: StoreV)
    ensures
        p matches PlanV::CreateNode { pattern, .. } ==> executor::step(p, t, env, st)
            == writes::created_nodes(t, pattern, env, st),
        p matches PlanV::CreatePath { start, elements, .. } ==> executor::step(p, t, env, st)
            == writes::created_paths(t, start, elements, env, st),
{
    reveal(executor::step);
}

#[verifier::spinoff_prover]
proof fn lemma_run(ans: AnswersV, ns: Seq<NodeV>, es: Seq<EdgeV>, k: int, env: EnvV)
    requires
        creatable(ans, ns, es),
        env.answers == ans,
        0 <= k <= ns.len() + es.len(),
    ensures
        ({
            let n = if k < ns.len() { k } else { ns.len() as int };
            let r = executor::run(
                built(reparse::piece_parts(ans, pieces(ns, es)), k),
                env,
                store::empty_store(),
            );
            r.1 == made(ns, es, n, k - n) && (r.0 matches Ok(t) && t.rows == seq![made_row(ns, n)])
        }),
    decreases k,
{
    let xs = pieces(ns, es);
    let ps = reparse::piece_parts(ans, xs);
    let p = built(ps, k);
    let st = store::empty_store();
    if k == 0 {
        assert(made_row(ns, 0) =~= seq![]);
        assert(made(ns, es, 0, 0).nodes =~= st.nodes);
        assert(made(ns, es, 0, 0).edges =~= st.edges);
        assert(executor::run(p, env, st) == executor::source(p, env, st));
    } else {
        lemma_run(ans, ns, es, k - 1, env.at(0));
        let before = executor::run(built(ps, k - 1), env.at(0), st);
        let t = before.0->Ok_0;
        lemma_step(p, t, env.at(1), before.1);
        assert(ps[k - 1] == reparse::piece_part(ans, xs[k - 1]));
        if k <= ns.len() {
            assert(exported::writable_node(ans, ns[k - 1]));
            lemma_node_made(ans, ns, es, k - 1, t, env.at(1));
        } else {
            let m = k - 1 - ns.len();
            assert(exported::writable_edge(ans, es[m]));
            lemma_edge_made(ans, ns, es, m, t, env.at(1));
        }
        assert(executor::run(p, env, st) == executor::step(p, t, env.at(1), before.1));
    }
}

// ---------------------------------------------------------------------------
// The law
// ---------------------------------------------------------------------------

/// The relationships of a graph, oldest first.
pub open spec fn all_edges(st: StoreV) -> Seq<EdgeV> {
    let ids = store::all_edge_ids(st);
    Seq::new(ids.len(), |i: int| store::edge_at(st, ids[i]).unwrap())
}

/// A graph whose labels, types and keys are words and whose properties can be
/// read back, with a node in it.
pub open spec fn exportable(ans: AnswersV, st: StoreV) -> bool {
    &&& store::labelled(st, None).len() > 0
    &&& forall|i: int|
        0 <= i < st.nodes.len() ==> ((#[trigger] st.nodes[i]) matches Some(n)
            ==> exported::writable_node(ans, n))
    &&& forall|i: int|
        0 <= i < st.edges.len() ==> ((#[trigger] st.edges[i]) matches Some(e)
            ==> exported::writable_edge(ans, e))
}

/// A graph is a copy of another one, without its constraints: nodes and
/// relationships are numbered anew in the same order, and each has the labels
/// or the type, the properties and the ends that it had.
pub open spec fn copies(st: StoreV, copy: StoreV) -> bool {
    let ns = store::labelled(st, None);
    let es = all_edges(st);
    &&& unconstrained(copy)
    &&& copy.nodes.len() == ns.len()
    &&& copy.edges.len() == es.len()
    &&& forall|i: int|
        0 <= i < ns.len() ==> ((#[trigger] copy.nodes[i]) matches Some(n) && n.id == i && n.labels
            == ns[i].labels && same_props(n.properties, ns[i].properties))
    &&& forall|i: int|
        0 <= i < es.len() ==> ((#[trigger] copy.edges[i]) matches Some(e) && e.id == i && e.label
            == es[i].label && same_props(e.properties, es[i].properties) && e.src < ns.len()
            && e.dst < ns.len() && ns[e.src as int].id == es[i].src && ns[e.dst as int].id
            == es[i].dst)
}

proof fn lemma_listing<T>(s: Seq<Option<T>>, p: spec_fn(T) -> bool, n: int)
    requires
        0 <= n <= s.len() <= u64::MAX,
        forall|x: T| #[trigger] p(x),
    ensures
        ({
            let ids = store::chosen_ids(s, p, n);
            let xs = store::chosen(s, p, n);
            &&& ids.len() == xs.len()
            &&& ids.len() <= n
            &&& forall|i: int| #![trigger ids[i]]
                0 <= i < ids.len() ==> ids[i] < n && s[ids[i] as int] == Some(xs[i])
            &&& forall|i: int, j: int| 0 <= i < j < ids.len() ==> #[trigger] ids[i] < #[trigger] ids[j]
            &&& forall|k: int|
                0 <= k < n && (#[trigger] s[k]) is Some ==> exists|i: int|
                    0 <= i < ids.len() && #[trigger] ids[i] == k
        }),
    decreases n,
{
    if n > 0 {
        lemma_listing(s, p, n - 1);
        let before = store::chosen_ids(s, p, n - 1);
        let ids = store::chosen_ids(s, p, n);
        assert forall|k: int| 0 <= k < n && (#[trigger] s[k]) is Some implies exists|i: int|
            0 <= i < ids.len() && #[trigger] ids[i] == k by {
            if k < n - 1 {
                let i = choose|i: int| 0 <= i < before.len() && #[trigger] before[i] == k;
                assert(ids[i] == before[i]);
            } else {
                assert(p(s[k]->0));
                assert(ids[ids.len() - 1] == k);
            }
        }
        if s[n - 1] is Some {
            assert(p(s[n - 1]->0));
        }
    }
}

/// The nodes and relationships of an exportable graph can be created one
/// after another.
proof fn lemma_creatable(ans: AnswersV, st: StoreV)
    requires
        store::well_formed(st),
        exportable(ans, st),
    ensures
        creatable(ans, store::labelled(st, None), all_edges(st)),
        forall|i: int|
            0 <= i < store::all_edge_ids(st).len() ==> store::edge_at(
                st,
                #[trigger] store::all_edge_ids(st)[i],
            ) is Some,
{
    let pn = |n: NodeV| store::has_label(n, None);
    let pe = |e: EdgeV| true;
    let ns = store::labelled(st, None);
    let es = all_edges(st);
    let ids = store::chosen_ids(st.nodes, pn, st.nodes.len() as int);
    let eids = store::all_edge_ids(st);
    lemma_listing(st.nodes, pn, st.nodes.len() as int);
    lemma_listing(st.edges, pe, st.edges.len() as int);
    assert forall|i: int| 0 <= i < ns.len() implies exported::writable_node(ans, #[trigger] ns[i])
        && ns[i].id == ids[i] by {
        assert(st.nodes[ids[i] as int] == Some(ns[i]));
    }
    assert forall|i: int, j: int|
        0 <= i < ns.len() && 0 <= j < ns.len() && i != j implies (#[trigger] ns[i]).id != (
    #[trigger] ns[j]).id by {
        assert(ns[i].id == ids[i] && ns[j].id == ids[j]);
        if i < j {
            assert(ids[i] < ids[j]);
        } else {
            assert(ids[j] < ids[i]);
        }
    }
    assert forall|i: int| 0 <= i < es.len() implies exported::writable_edge(ans, #[trigger] es[i])
        && listed(ns, es[i].src) && listed(ns, es[i].dst) by {
        assert(eids[i] < st.edges.len());
        assert(st.edges[eids[i] as int] == Some(es[i]));
        assert(store::node_at(st, es[i].src) is Some && store::node_at(st, es[i].dst) is Some);
        lemma_listed(st, es[i].src);
        lemma_listed(st, es[i].dst);
    }
}

proof fn lemma_listed(st: StoreV, id: u64)
    requires
        store::well_formed(st),
        store::node_at(st, id) is Some,
    ensures
        listed(store::labelled(st, None), id),
{
    let pn = |n: NodeV| store::has_label(n, None);
    let ns = store::labelled(st, None);
    let ids = store::chosen_ids(st.nodes, pn, st.nodes.len() as int);
    lemma_listing(st.nodes, pn, st.nodes.len() as int);
    assert(st.nodes[id as int] is Some);
    let i = choose|i: int| 0 <= i < ids.len() && #[trigger] ids[i] == id as int;
    assert(st.nodes[ids[i] as int] == Some(ns[i]));
    assert(ns[i].id == id);
}

proof fn lemma_nodes_text(ans: AnswersV, ns: Seq<NodeV>, es: Seq<EdgeV>, n: int)
    requires
        creatable(ans, ns, es),
        0 <= n <= ns.len(),
    ensures
        graph::exported_nodes(ans, ns, n) == Ok::<Seq<Seq<char>>, ErrV>(
            exported::piece_texts(ans, pieces(ns, es)).take(n),
        ),
    decreases n,
{
    let ts = exported::piece_texts(ans, pieces(ns, es));
    if n > 0 {
        lemma_nodes_text(ans, ns, es, n - 1);
        assert(exported::writable_node(ans, ns[n - 1]));
        exported::lemma_piece_reads(ans, PieceV::Node(ns[n - 1]));
        assert(ts.take(n) =~= ts.take(n - 1).push(ts[n - 1]));
    } else {
        assert(ts.take(0) =~= seq![]);
    }
}

proof fn lemma_edges_text(ans: AnswersV, st: StoreV, m: int)
    requires
        creatable(ans, store::labelled(st, None), all_edges(st)),
        forall|i: int|
            0 <= i < store::all_edge_ids(st).len() ==> store::edge_at(
                st,
                #[trigger] store::all_edge_ids(st)[i],
            ) is Some,
        0 <= m <= store::all_edge_ids(st).len(),
    ensures
        ({
            let ns = store::labelled(st, None);
            let ts = exported::piece_texts(ans, pieces(ns, all_edges(st)));
            graph::exported_edges(
                ans,
                st,
                store::all_edge_ids(st),
                ts.take(ns.len() as int),
                m,
            ) == Ok::<Seq<Seq<char>>, ErrV>(ts.take(ns.len() + m))
        }),
    decreases m,
{
    let ns = store::labelled(st, None);
    let es = all_edges(st);
    let ids = store::all_edge_ids(st);
    let ts = exported::piece_texts(ans, pieces(ns, es));
    if m > 0 {
        lemma_edges_text(ans, st, m - 1);
        assert(store::edge_at(st, ids[m - 1]) == Some(es[m - 1]));
        assert(exported::writable_edge(ans, es[m - 1]));
        exported::lemma_piece_reads(ans, PieceV::Edge(es[m - 1]));
        let k = ns.len() + m;
        assert(ts.take(k) =~= ts.take(k - 1).push(ts[k - 1]));
    }
}

/// What a graph is exported as.
proof fn lemma_exported(ans: AnswersV, st: StoreV)
    requires
        store::well_formed(st),
        exportable(ans, st),
    ensures
        ({
            let xs = pieces(store::labelled(st, None), all_edges(st));
            graph::exported(ans, st) == Ok::<Seq<char>, ErrV>(
                "CREATE\n  "@ + text::joined(exported::piece_texts(ans, xs), ",\n  "@),
            )
        }),
{
    let ns = store::labelled(st, None);
    let es = all_edges(st);
    let ts = exported::piece_texts(ans, pieces(ns, es));
    lemma_creatable(ans, st);
    lemma_nodes_text(ans, ns, es, ns.len() as int);
    lemma_edges_text(ans, st, es.len() as int);
    assert(ts.take((ns.len() + es.len()) as int) =~= ts);
}

/// The graph that the query leaves is a copy.
proof fn lemma_made_copies(ans: AnswersV, st: StoreV)
    requires
        creatable(ans, store::labelled(st, None), all_edges(st)),
    ensures
        ({
            let ns = store::labelled(st, None);
            let es = all_edges(st);
            copies(st, made(ns, es, ns.len() as int, es.len() as int))
        }),
{
    let ns = store::labelled(st, None);
    let es = all_edges(st);
    let copy = made(ns, es, ns.len() as int, es.len() as int);
    assert forall|i: int| 0 <= i < ns.len() implies ((#[trigger] copy.nodes[i]) matches Some(n)
        && n.id == i && n.labels == ns[i].labels && same_props(n.properties, ns[i].properties)) by {
        lemma_kept(ns[i].properties);
    }
    assert forall|i: int| 0 <= i < es.len() implies ((#[trigger] copy.edges[i]) matches Some(e)
        && e.id == i && e.label == es[i].label && same_props(e.properties, es[i].properties)
        && e.src < ns.len() && e.dst < ns.len() && ns[e.src as int].id == es[i].src
        && ns[e.dst as int].id == es[i].dst) by {
        assert(exported::writable_edge(ans, es[i]));
        assert(listed(ns, es[i].src) && listed(ns, es[i].dst));
        lemma_kept(es[i].properties);
    }
}

/// The query that a graph is exported as, run on an empty graph, succeeds and
/// leaves a copy of the graph: the same nodes with their labels and
/// properties, and the same relationships between them, numbered anew.
pub proof fn lemma_export_recreates(st: StoreV, env: EnvV)
    requires
        store::well_formed(st),
        exportable(env.answers, st),
    ensures
        graph::exported(env.answers, st) matches Ok(q) && graph::queried(
            q,
            env,
            store::empty_store(),
        ).0 is Ok && copies(st, graph::queried(q, env, store::empty_store()).1),
{
    let ans = env.answers;
    let ns = store::labelled(st, None);
    let es = all_edges(st);
    let xs = pieces(ns, es);
    let ps = reparse::piece_parts(ans, xs);
    lemma_creatable(ans, st);
    lemma_exported(ans, st);
    assert forall|j: int| 0 <= j < xs.len() implies exported::writable_piece(
        ans,
        #[trigger] xs[j],
    ) by {
        if j < ns.len() {
            assert(exported::writable_node(ans, ns[j]));
        } else {
            assert(exported::writable_edge(ans, es[j - ns.len()]));
        }
    }
    reparse::lemma_query_parsed(ans, xs);
    assert forall|j: int| 0 <= j < ps.len() implies (#[trigger] ps[j]).element is Node
        || ps[j].element is Chain by {
        assert(ps[j] == reparse::piece_part(ans, xs[j]));
    }
    lemma_built(ps, 0);
    let p = built(ps, ps.len() as int);
    let c = ClauseV::Create(ps);
    assert(planner::clause_plan(c, PlanV::EmptyRow) == Ok::<PlanV, ErrV>(p));
    assert(planner::clauses_plan(seq![c], 1, p) == Ok::<PlanV, ErrV>(p));
    assert(planner::clauses_plan(seq![c], 0, PlanV::EmptyRow) == Ok::<PlanV, ErrV>(p));
    assert(planner::plan_of(reparse::creation(ans, xs)) == Ok::<PlanV, ErrV>(p));
    lemma_run(ans, ns, es, (ns.len() + es.len()) as int, env);
    lemma_made_copies(ans, st);
}

} // verus!
