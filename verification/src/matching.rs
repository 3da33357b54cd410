//! What clauses give when they are planned and run.
use crate::assoc;
use crate::ast::{
    ChainV, ClauseV, Direction, ExprV, LitV, MatchKind, NodePatV, PartV, PatternV, ProjV, RelPatV,
};
use crate::calls;
use crate::combining;
use crate::error::ErrV;
use crate::executor;
use crate::functions::{self, Func};
use crate::hops;
use crate::index;
use crate::operators;
use crate::plan::{HopV, PlanV};
use crate::planner;
use crate::rows::TableV;
use crate::semantics::{self, EnvV};
use crate::store::{self, StoreV};
use crate::tables;
use crate::text;
use crate::totals;
use crate::value::{NodeV, RecV, ValV};
use crate::writes::DoneV;
use vstd::prelude::*;

verus! {

// ---------------------------------------------------------------------------
// MATCH
// ---------------------------------------------------------------------------

/// A node pattern that is only a variable.
pub open spec fn named(x: Seq<char>) -> NodePatV {
    NodePatV { variable: Some(x), labels: seq![], properties: None }
}

/// `(a)-[r:T]->(b)`, with an arrow in some direction.
pub open spec fn one_relationship(
    a: Seq<char>,
    r: Seq<char>,
    b: Seq<char>,
    types: Seq<Seq<char>>,
    direction: Direction,
) -> PartV {
    PartV {
        variable: Some(a),
        element: PatternV::Chain {
            start: named(a),
            elements: seq![
                ChainV {
                    relationship: RelPatV {
                        variable: Some(r),
                        rel_types: types,
                        direction,
                        range: None,
                        properties: None,
                    },
                    node: named(b),
                },
            ],
        },
    }
}

/// A relationship that is there and has one of the types.
pub open spec fn wanted(m: int, types: Seq<Seq<char>>, st: StoreV) -> bool {
    &&& 0 <= m < st.edges.len()
    &&& st.edges[m] is Some
    &&& types.len() == 0 || types.contains(st.edges[m]->0.label)
}

/// A row binds a relationship and its two ends.
pub open spec fn binds(
    row: RecV,
    a: Seq<char>,
    r: Seq<char>,
    b: Seq<char>,
    x: u64,
    m: int,
    y: u64,
    st: StoreV,
) -> bool {
    &&& x < st.nodes.len() && st.nodes[x as int] is Some && assoc::lookup(row, a) == Some(
        ValV::Node(st.nodes[x as int]->0),
    )
    &&& y < st.nodes.len() && st.nodes[y as int] is Some && assoc::lookup(row, b) == Some(
        ValV::Node(st.nodes[y as int]->0),
    )
    &&& assoc::lookup(row, r) == Some(ValV::Relationship(st.edges[m]->0))
}

/// A row binds a relationship of a wanted type, and the nodes that the arrow
/// leads from and to along it.
pub open spec fn is_match(
    row: RecV,
    a: Seq<char>,
    r: Seq<char>,
    b: Seq<char>,
    types: Seq<Seq<char>>,
    direction: Direction,
    st: StoreV,
) -> bool {
    exists|x: u64, m: int, y: u64|
        wanted(m, types, st) && hops::leads(st.edges[m]->0, x, y, direction) && #[trigger] binds(
            row,
            a,
            r,
            b,
            x,
            m,
            y,
            st,
        )
}

/// One of the rows binds a relationship and its ends.
pub open spec fn is_given(
    rs: Seq<RecV>,
    a: Seq<char>,
    r: Seq<char>,
    b: Seq<char>,
    x: u64,
    m: int,
    y: u64,
    st: StoreV,
) -> bool {
    exists|k: int| 0 <= k < rs.len() && binds(#[trigger] rs[k], a, r, b, x, m, y, st)
}

/// Rows are the matches of a pattern with one relationship: each row is one, each
/// relationship of a wanted type is bound with its ends, and with a direction no
/// relationship is bound twice.
pub open spec fn are_matches(
    rs: Seq<RecV>,
    a: Seq<char>,
    r: Seq<char>,
    b: Seq<char>,
    types: Seq<Seq<char>>,
    direction: Direction,
    st: StoreV,
) -> bool {
    &&& forall|k: int|
        0 <= k < rs.len() ==> is_match(#[trigger] rs[k], a, r, b, types, direction, st)
    &&& forall|x: u64, m: int, y: u64|
        wanted(m, types, st) && #[trigger] hops::leads(st.edges[m]->0, x, y, direction)
            ==> is_given(rs, a, r, b, x, m, y, st)
    &&& direction != Direction::Undirected ==> forall|k: int, l: int|
        0 <= k < l < rs.len() ==> assoc::lookup(#[trigger] rs[k], r) != assoc::lookup(
            #[trigger] rs[l],
            r,
        )
}

/// `MATCH (a)-[r:T]->(b)` gives a row for each relationship of the type and each
/// way in which the arrow leads along it: `a` is where it leads from and `b` is
/// where it leads to. There are no other rows, and with a direction there is one
/// row for each relationship.
pub proof fn lemma_match_relationship(
    a: Seq<char>,
    r: Seq<char>,
    b: Seq<char>,
    types: Seq<Seq<char>>,
    direction: Direction,
    env: EnvV,
    st: StoreV,
)
    requires
        store::well_formed(st),
        a != b && a != r && b != r,
    ensures
        planner::clause_plan(
            ClauseV::Match(
                seq![one_relationship(a, r, b, types, direction)],
                MatchKind::Regular,
            ),
            PlanV::EmptyRow,
        ) matches Ok(p) && executor::run(p, env, st).1 == st && executor::run(p, env, st).0
            is Ok && are_matches(
            executor::run(p, env, st).0->Ok_0.rows,
            a,
            r,
            b,
            types,
            direction,
            st,
        ),
{
    let scan = PlanV::ScanNodes { label_filter: None, inline_props: seq![], variable: a };
    let hop = HopV { src: a, rel: Some(r), dst: b, types, direction };
    let p = PlanV::Expand { input: Box::new(scan), hop };
    lemma_planned(a, r, b, types, direction);
    let ids = tables::lemma_scan(a, None, env.at(0), st);
    let t = executor::run(scan, env.at(0), st).0->Ok_0;
    assert(executor::run(p, env, st) == executor::step(p, t, env.at(1), st));
    assert forall|i: int| 0 <= i < ids.len() implies ids[i] < st.nodes.len()
        && st.nodes[ids[i] as int] is Some && assoc::lookup(#[trigger] t.rows[i], a) == Some(
        ValV::Node(st.nodes[ids[i] as int]->0),
    ) by {
        let row = t.rows[i];
        assert(row == seq![(a, ValV::Node(st.nodes[ids[i] as int]->0))]);
    }
    assert forall|x: u64| x < st.nodes.len() && st.nodes[x as int] is Some implies #[trigger]
    ids.contains(x) by {
        assert((x as int) as u64 == x);
        assert(ids.contains((x as int) as u64));
    }
    lemma_matches(t, ids, hop, env.at(1), st);
}

/// The rows of a scan.
spec fn scanned(t: TableV, ids: Seq<u64>, a: Seq<char>, st: StoreV) -> bool {
    &&& t.rows.len() == ids.len()
    &&& forall|i: int, j: int| 0 <= i < j < ids.len() ==> #[trigger] ids[i] < #[trigger] ids[j]
    &&& forall|x: u64|
        x < st.nodes.len() && st.nodes[x as int] is Some ==> #[trigger] ids.contains(x)
    &&& forall|i: int|
        0 <= i < ids.len() ==> ids[i] < st.nodes.len() && st.nodes[ids[i] as int] is Some
            && assoc::lookup(#[trigger] t.rows[i], a) == Some(
            ValV::Node(st.nodes[ids[i] as int]->0),
        )
}

proof fn lemma_matches(t: TableV, ids: Seq<u64>, hop: HopV, env: EnvV, st: StoreV)
    requires
        store::well_formed(st),
        hop.rel is Some,
        hop.src != hop.dst && Some(hop.src) != hop.rel && Some(hop.dst) != hop.rel,
        scanned(t, ids, hop.src, st),
    ensures
        ({
            let scan = PlanV::ScanNodes {
                label_filter: None,
                inline_props: seq![],
                variable: hop.src,
            };
            let p = PlanV::Expand { input: Box::new(scan), hop };
            let done = executor::step(p, t, env, st);
            done.1 == st && done.0 is Ok && are_matches(
                done.0->Ok_0.rows,
                hop.src,
                hop.rel->0,
                hop.dst,
                hop.types,
                hop.direction,
                st,
            )
        }),
{
    let scan = PlanV::ScanNodes { label_filter: None, inline_props: seq![], variable: hop.src };
    let p = PlanV::Expand { input: Box::new(scan), hop };
    let picks = hops::lemma_hop(Box::new(scan), t, hop, env, st);
    let rs = executor::step(p, t, env, st).0->Ok_0.rows;
    assert forall|k: int| 0 <= k < rs.len() implies is_match(
        #[trigger] rs[k],
        hop.src,
        hop.rel->0,
        hop.dst,
        hop.types,
        hop.direction,
        st,
    ) by {
        let p = picks[k];
        lemma_is_match(rs[k], t, ids, p.0, p.1, hop, st);
    }
    assert forall|x: u64, m: int, y: u64|
        wanted(m, hop.types, st) && #[trigger] hops::leads(
            st.edges[m]->0,
            x,
            y,
            hop.direction,
        ) implies is_given(rs, hop.src, hop.rel->0, hop.dst, x, m, y, st) by {
        let i = lemma_matching(t, ids, x, m, y, hop, st);
        assert(picks.contains((i, m)));
        let k = choose|k: int| 0 <= k < picks.len() && picks[k] == (i, m);
        assert(hops::reaches(rs[k], t.rows[picks[k].0], picks[k].1, hop, st));
        lemma_binds(rs[k], t, ids, i, x, m, y, hop, st);
    }
    if hop.direction != Direction::Undirected {
        assert forall|k: int, l: int| 0 <= k < l < rs.len() implies assoc::lookup(
            #[trigger] rs[k],
            hop.rel->0,
        ) != assoc::lookup(#[trigger] rs[l], hop.rel->0) by {
            let p = picks[k];
            let q = picks[l];
            lemma_once(rs[k], rs[l], t, ids, p, q, hop, st);
            assert(picks[k] != picks[l]);
        }
    }
}

proof fn lemma_is_match(
    row: RecV,
    t: TableV,
    ids: Seq<u64>,
    i: int,
    m: int,
    hop: HopV,
    st: StoreV,
)
    requires
        store::well_formed(st),
        hop.rel is Some,
        hop.src != hop.dst && Some(hop.src) != hop.rel && Some(hop.dst) != hop.rel,
        scanned(t, ids, hop.src, st),
        0 <= i < t.rows.len(),
        hops::matches(t.rows[i], m, hop, st),
        hops::reaches(row, t.rows[i], m, hop, st),
    ensures
        is_match(row, hop.src, hop.rel->0, hop.dst, hop.types, hop.direction, st),
{
    let x = ids[i];
    let f = assoc::lookup(row, hop.dst)->0->Node_0;
    assert(assoc::lookup(row, hop.src) == assoc::lookup(t.rows[i], hop.src));
    assert(st.nodes[x as int]->0.id == x);
    assert(binds(row, hop.src, hop.rel->0, hop.dst, x, m, f.id, st));
}

proof fn lemma_matching(
    t: TableV,
    ids: Seq<u64>,
    x: u64,
    m: int,
    y: u64,
    hop: HopV,
    st: StoreV,
) -> (i: int)
    requires
        store::well_formed(st),
        scanned(t, ids, hop.src, st),
        wanted(m, hop.types, st),
        hops::leads(st.edges[m]->0, x, y, hop.direction),
    ensures
        0 <= i < t.rows.len(),
        ids[i] == x,
        hops::matches(t.rows[i], m, hop, st),
{
    let e = st.edges[m]->0;
    assert(store::node_at(st, e.src) is Some && store::node_at(st, e.dst) is Some);
    assert(ids.contains(x));
    let i = choose|i: int| 0 <= i < ids.len() && ids[i] == x;
    assert(st.nodes[x as int]->0.id == x);
    assert(assoc::lookup(t.rows[i], hop.src) == Some(ValV::Node(st.nodes[x as int]->0)));
    i
}

proof fn lemma_binds(
    row: RecV,
    t: TableV,
    ids: Seq<u64>,
    i: int,
    x: u64,
    m: int,
    y: u64,
    hop: HopV,
    st: StoreV,
)
    requires
        store::well_formed(st),
        hop.rel is Some,
        hop.src != hop.dst && Some(hop.src) != hop.rel && Some(hop.dst) != hop.rel,
        scanned(t, ids, hop.src, st),
        0 <= i < t.rows.len(),
        ids[i] == x,
        wanted(m, hop.types, st),
        hops::leads(st.edges[m]->0, x, y, hop.direction),
        hops::reaches(row, t.rows[i], m, hop, st),
    ensures
        binds(row, hop.src, hop.rel->0, hop.dst, x, m, y, st),
{
    let f = assoc::lookup(row, hop.dst)->0->Node_0;
    assert(assoc::lookup(row, hop.src) == assoc::lookup(t.rows[i], hop.src));
    assert(st.nodes[x as int]->0.id == x);
    assert(f.id == y);
}

proof fn lemma_once(
    u: RecV,
    v: RecV,
    t: TableV,
    ids: Seq<u64>,
    p: (int, int),
    q: (int, int),
    hop: HopV,
    st: StoreV,
)
    requires
        store::well_formed(st),
        hop.rel is Some && Some(hop.dst) != hop.rel,
        hop.direction != Direction::Undirected,
        scanned(t, ids, hop.src, st),
        0 <= p.0 < t.rows.len() && 0 <= q.0 < t.rows.len(),
        hops::matches(t.rows[p.0], p.1, hop, st) && hops::matches(t.rows[q.0], q.1, hop, st),
        hops::reaches(u, t.rows[p.0], p.1, hop, st) && hops::reaches(v, t.rows[q.0], q.1, hop, st),
    ensures
        assoc::lookup(u, hop.rel->0) == assoc::lookup(v, hop.rel->0) ==> p == q,
{
    let m = p.1;
    let n = q.1;
    assert(st.edges[m]->0.id == m && st.edges[n]->0.id == n);
    assert(st.nodes[ids[p.0] as int]->0.id == ids[p.0]);
    assert(st.nodes[ids[q.0] as int]->0.id == ids[q.0]);
    if m == n {
        assert(ids[p.0] == ids[q.0]);
        if p.0 < q.0 {
            assert(ids[p.0] < ids[q.0]);
        } else if q.0 < p.0 {
            assert(ids[q.0] < ids[p.0]);
        }
    }
}

proof fn lemma_planned(
    a: Seq<char>,
    r: Seq<char>,
    b: Seq<char>,
    types: Seq<Seq<char>>,
    direction: Direction,
)
    ensures
        ({
            let part = one_relationship(a, r, b, types, direction);
            let scan = PlanV::ScanNodes { label_filter: None, inline_props: seq![], variable: a };
            let hop = HopV { src: a, rel: Some(r), dst: b, types, direction };
            planner::clause_plan(
                ClauseV::Match(seq![part], MatchKind::Regular),
                PlanV::EmptyRow,
            ) == Ok::<PlanV, ErrV>(PlanV::Expand { input: Box::new(scan), hop })
        }),
{
    let part = one_relationship(a, r, b, types, direction);
    let parts = seq![part];
    let scan = PlanV::ScanNodes { label_filter: None, inline_props: seq![], variable: a };
    let hop = HopV { src: a, rel: Some(r), dst: b, types, direction };
    let p = PlanV::Expand { input: Box::new(scan), hop };
    let step = part.element->elements[0];
    assert(planner::node_scan(named(a), a) == scan);
    assert(planner::with_step(scan, a, step, 0) == p);
    reveal_with_fuel(planner::with_chain, 2);
    assert(planner::with_chain(scan, a, part.element->elements, 0) == p);
    assert(planner::with_part(PlanV::EmptyRow, part) == p);
    reveal_with_fuel(planner::with_parts, 2);
    assert(planner::with_parts(PlanV::EmptyRow, parts, 0) == p);
}

/// OPTIONAL MATCH gives what MATCH of the pattern alone gives, joined to the rows
/// that were there: each of these stays, with nulls where nothing fits it.
pub proof fn lemma_optional_match(
    parts: Seq<PartV>,
    input: PlanV,
    l: TableV,
    r: TableV,
    env: EnvV,
    st: StoreV,
) -> (picks: Seq<(int, int)>)
    requires
        parts.len() > 0,
        executor::run(input, env.at(0), st) == (Ok::<TableV, ErrV>(l), st),
        planner::clause_plan(ClauseV::Match(parts, MatchKind::Regular), PlanV::EmptyRow) matches Ok(
            alone,
        ) && executor::run(alone, env.at(1), st) == (Ok::<TableV, ErrV>(r), st),
        combining::all_plain(l.rows),
        combining::all_plain(r.rows),
    ensures
        combining::in_turn(picks),
        forall|i: int, j: int| #[trigger]
            combining::meets(i, j, l, r) <==> picks.contains((i, j)),
        planner::clause_plan(ClauseV::Match(parts, MatchKind::Optional), input) matches Ok(p)
            && executor::run(p, env, st).0 matches Ok(out) && out.rows.len() == picks.len()
            && forall|k: int|
            0 <= k < picks.len() ==> combining::extends(
                #[trigger] out.rows[k],
                l.rows[picks[k].0],
                if picks[k].1 == -1 {
                    seq![]
                } else {
                    r.rows[picks[k].1]
                },
                l,
                r,
            ),
{
    let alone = planner::with_parts(PlanV::EmptyRow, parts, 0);
    let p = PlanV::LeftOuterJoin { left: Box::new(input), right: Box::new(alone) };
    let picks = combining::lemma_outer_join(p, l, r);
    assert(executor::run(p, env, st) == (executor::combined(p, l, r), st));
    picks
}

// ---------------------------------------------------------------------------
// WHERE, SKIP and LIMIT
// ---------------------------------------------------------------------------

/// WHERE behind other clauses keeps just those of their rows for which it is
/// true.
pub proof fn lemma_where(
    input: PlanV,
    e: ExprV,
    t: TableV,
    vals: Seq<ValV>,
    env: EnvV,
    st: StoreV,
    after: StoreV,
) -> (ps: Seq<int>)
    requires
        executor::run(input, env.at(0), st) == (Ok::<TableV, ErrV>(t), after),
        totals::has_values(e, t.rows, vals, after),
    ensures
        forall|a: int, b: int| 0 <= a < b < ps.len() ==> #[trigger] ps[a] < #[trigger] ps[b],
        forall|i: int| #[trigger]
            ps.contains(i) <==> 0 <= i < vals.len() && vals[i] == ValV::Boolean(true),
        planner::clause_plan(ClauseV::Where(e), input) matches Ok(p) && executor::run(p, env, st).0
            matches Ok(out) && out.rows.len() == ps.len() && forall|k: int|
            0 <= k < ps.len() ==> #[trigger] out.rows[k] == t.rows[ps[k]],
{
    let p = PlanV::Filter { input: Box::new(input), predicate: e };
    let ps = tables::lemma_filter(Box::new(input), t, e, vals, env.at(1), after);
    assert(executor::run(p, env, st) == executor::step(p, t, env.at(1), after));
    ps
}

/// RETURN with SKIP and LIMIT gives the rows of RETURN without them, but for the
/// first ones that SKIP says, and then no more than LIMIT says.
pub proof fn lemma_skip_limit(
    c: ProjV,
    input: PlanV,
    a: i64,
    b: i64,
    t: TableV,
    env: EnvV,
    st: StoreV,
    after: StoreV,
)
    requires
        a >= 0 && b >= 0,
        executor::run(
            planner::return_plan((ProjV { skip: None, limit: None, ..c }), input),
            env.at(0).at(0),
            st,
        ) == (Ok::<TableV, ErrV>(t), after),
    ensures
        ({
            let skip = ExprV::Literal(LitV::Integer(a));
            let limit = ExprV::Literal(LitV::Integer(b));
            let p = planner::return_plan((ProjV { skip: Some(skip), limit: Some(limit), ..c }), input);
            executor::run(p, env, st).0 matches Ok(out) && out.cols == t.cols && (forall|k: int|
                0 <= k < out.rows.len() ==> #[trigger] out.rows[k] == t.rows[a + k])
                && out.rows.len() <= b && out.rows.len() <= t.rows.len() && (out.rows.len() == b
                || a + out.rows.len() >= t.rows.len())
        }),
{
    let skip = ExprV::Literal(LitV::Integer(a));
    let limit = ExprV::Literal(LitV::Integer(b));
    let base = planner::return_plan((ProjV { skip: None, limit: None, ..c }), input);
    let s = PlanV::Skip { input: Box::new(base), count: skip };
    let p = PlanV::Limit { input: Box::new(s), count: limit };
    assert(planner::return_plan((ProjV { skip: Some(skip), limit: Some(limit), ..c }), input) == p);
    reveal(executor::step);
    reveal_with_fuel(crate::semantics::eval, 3);
    let mid = executor::run(s, env.at(0), st);
    assert(mid == executor::step(s, t, env.at(0).at(1), after));
    let left = mid.0->Ok_0;
    assert(executor::run(p, env, st) == executor::step(p, left, env.at(1), after));
}

// ---------------------------------------------------------------------------
// MATCH of nodes
// ---------------------------------------------------------------------------

/// A live node that has the first `k` of the labels.
pub open spec fn bears_first(n: Option<NodeV>, labels: Seq<Seq<char>>, k: int) -> bool {
    n matches Some(x) && forall|m: int|
        0 <= m < k && m < labels.len() ==> text::has_text(x.labels, #[trigger] labels[m])
}

/// A result is a row for each of the nodes with the first `k` labels, in the
/// order of their identifiers.
pub open spec fn are_bearers(
    done: DoneV<TableV>,
    x: Seq<char>,
    ids: Seq<u64>,
    labels: Seq<Seq<char>>,
    k: int,
    st: StoreV,
) -> bool {
    &&& done.1 == st
    &&& index::ordered(ids)
    &&& forall|i: u64| #[trigger]
        ids.contains(i) <==> i < st.nodes.len() && bears_first(st.nodes[i as int], labels, k)
    &&& done.0 matches Ok(out) && out.cols == seq![x] && out.rows.len() == ids.len() && forall|
        j: int,
    |
        0 <= j < ids.len() ==> #[trigger] out.rows[j] == seq![
            (x, ValV::Node(st.nodes[ids[j] as int]->0)),
        ]
}

/// A result is such rows for some identifiers.
pub open spec fn lists(
    done: DoneV<TableV>,
    x: Seq<char>,
    labels: Seq<Seq<char>>,
    k: int,
    st: StoreV,
) -> bool {
    exists|ids: Seq<u64>| are_bearers(done, x, ids, labels, k, st)
}

proof fn lemma_has_label_named()
    ensures
        calls::names("__has_label"@, Func::HasLabel),
{
    let s = "__has_label"@;
    reveal_strlit("__has_label");
    reveal_strlit("count");
    reveal_strlit("sum");
    reveal_strlit("avg");
    reveal_strlit("min");
    reveal_strlit("max");
    reveal_strlit("collect");
    reveal_strlit("percentilecont");
    reveal_strlit("percentiledisc");
    reveal_strlit("stdev");
    reveal_strlit("stdevp");
    assert(text::lower_text(s) =~= s);
    reveal(functions::function_named);
}

/// The test for a label on a row that binds a node.
proof fn lemma_label_test(x: Seq<char>, label: Seq<char>, n: NodeV, d: EnvV, st: StoreV)
    ensures
        semantics::eval(
            planner::label_test(x, label),
            seq![(x, ValV::Node(n))],
            d,
            st,
        ) == Ok::<ValV, ErrV>(ValV::Boolean(text::has_text(n.labels, label))),
{
    let rec: RecV = seq![(x, ValV::Node(n))];
    let a = ExprV::Variable(x);
    let b = ExprV::Literal(LitV::Str(label));
    lemma_has_label_named();
    assert(assoc::lookup(rec, x) == Some(ValV::Node(n))) by {
        assoc::lemma_position(rec, x, 0);
        assert(rec[0].0 == x);
    }
    assert(operators::means(a, ValV::Node(n), rec, d, st)) by {
        reveal_with_fuel(semantics::eval, 2);
    }
    assert(operators::means(b, ValV::Str(label), rec, d, st)) by {
        reveal_with_fuel(semantics::eval, 3);
    }
    calls::lemma_two(
        "__has_label"@,
        Func::HasLabel,
        a,
        ValV::Node(n),
        b,
        ValV::Str(label),
        rec,
        d,
        st,
    );
}

proof fn lemma_label_filter(
    p: PlanV,
    x: Seq<char>,
    labels: Seq<Seq<char>>,
    k: int,
    env: EnvV,
    st: StoreV,
)
    requires
        0 <= k < labels.len(),
        st.nodes.len() <= u64::MAX,
        lists(executor::run(p, env.at(0), st), x, labels, k, st),
    ensures
        lists(
            executor::run(
                PlanV::Filter {
                    input: Box::new(p),
                    predicate: planner::label_test(x, labels[k]),
                },
                env,
                st,
            ),
            x,
            labels,
            k + 1,
            st,
        ),
{
    let done = executor::run(p, env.at(0), st);
    let ids = choose|ids: Seq<u64>| are_bearers(done, x, ids, labels, k, st);
    let t = done.0->Ok_0;
    let e = planner::label_test(x, labels[k]);
    let q = PlanV::Filter { input: Box::new(p), predicate: e };
    let vals = Seq::new(
        ids.len(),
        |j: int|
            ValV::Boolean(text::has_text(st.nodes[ids[j] as int]->0.labels, labels[k])),
    );
    assert forall|j: int, d: EnvV| 0 <= j < t.rows.len() implies #[trigger] semantics::eval(
        e,
        t.rows[j],
        d,
        st,
    ) == Ok::<ValV, ErrV>(vals[j]) by {
        assert(t.rows[j] == seq![(x, ValV::Node(st.nodes[ids[j] as int]->0))]);
        lemma_label_test(x, labels[k], st.nodes[ids[j] as int]->0, d, st);
    }
    let ps = tables::lemma_filter(Box::new(p), t, e, vals, env.at(1), st);
    let end = executor::run(q, env, st);
    assert(end == executor::step(q, t, env.at(1), st));
    let kept = Seq::new(ps.len(), |j: int| ids[ps[j]]);
    assert forall|j: int| 0 <= j < ps.len() implies 0 <= #[trigger] ps[j] < ids.len() && vals[ps[j]]
        == ValV::Boolean(true) by {
        assert(ps.contains(ps[j]));
    }
    assert forall|a: int, b: int| 0 <= a < b < kept.len() implies #[trigger] kept[a]
        < #[trigger] kept[b] by {
        assert(ps[a] < ps[b]);
        assert(ids[ps[a]] < ids[ps[b]]);
    }
    assert forall|i: u64| #[trigger]
        kept.contains(i) <==> i < st.nodes.len() && bears_first(
            st.nodes[i as int],
            labels,
            k + 1,
        ) by {
        if kept.contains(i) {
            let j = choose|j: int| 0 <= j < kept.len() && kept[j] == i;
            assert(ids.contains(ids[ps[j]]));
        }
        if i < st.nodes.len() && bears_first(st.nodes[i as int], labels, k + 1) {
            assert(bears_first(st.nodes[i as int], labels, k));
            assert(ids.contains(i));
            let j = choose|j: int| 0 <= j < ids.len() && ids[j] == i;
            assert(text::has_text(st.nodes[i as int]->0.labels, labels[k]));
            assert(vals[j] == ValV::Boolean(true));
            assert(ps.contains(j));
            let a = choose|a: int| 0 <= a < ps.len() && ps[a] == j;
            assert(kept[a] == i);
        }
    }
    let out = end.0->Ok_0;
    assert forall|j: int| 0 <= j < kept.len() implies #[trigger] out.rows[j] == seq![
        (x, ValV::Node(st.nodes[kept[j] as int]->0)),
    ] by {
        assert(out.rows[j] == t.rows[ps[j]]);
    }
    assert(are_bearers(end, x, kept, labels, k + 1, st));
}

proof fn lemma_label_filters(
    p: PlanV,
    x: Seq<char>,
    labels: Seq<Seq<char>>,
    k: int,
    st: StoreV,
)
    requires
        0 <= k <= labels.len(),
        st.nodes.len() <= u64::MAX,
        forall|env: EnvV| lists(#[trigger] executor::run(p, env, st), x, labels, k, st),
    ensures
        forall|env: EnvV|
            lists(
                #[trigger] executor::run(planner::with_labels(p, x, labels, k), env, st),
                x,
                labels,
                labels.len() as int,
                st,
            ),
    decreases labels.len() - k,
{
    if k < labels.len() {
        let q = PlanV::Filter {
            input: Box::new(p),
            predicate: planner::label_test(x, labels[k]),
        };
        assert forall|env: EnvV| lists(#[trigger] executor::run(q, env, st), x, labels, k + 1, st) by {
            assert(lists(executor::run(p, env.at(0), st), x, labels, k, st));
            lemma_label_filter(p, x, labels, k, env, st);
        }
        lemma_label_filters(q, x, labels, k + 1, st);
    }
}

/// MATCH of a node with labels gives a row for each node that has all of them,
/// and for no other.
pub proof fn lemma_match_node(x: Seq<char>, labels: Seq<Seq<char>>, env: EnvV, st: StoreV) -> (ids:
    Seq<u64>)
    requires
        store::well_formed(st),
    ensures
        planner::match_plan(
            seq![
                PartV {
                    variable: Some(x),
                    element: PatternV::Node(
                        NodePatV { variable: Some(x), labels, properties: None },
                    ),
                },
            ],
            MatchKind::Regular,
            PlanV::EmptyRow,
        ) matches Ok(p) && are_bearers(
            executor::run(p, env, st),
            x,
            ids,
            labels,
            labels.len() as int,
            st,
        ),
{
    let label = if labels.len() > 0 {
        Some(labels[0])
    } else {
        None
    };
    let k: int = if labels.len() > 0 {
        1
    } else {
        0
    };
    let np = NodePatV { variable: Some(x), labels, properties: None };
    let part = PartV { variable: Some(x), element: PatternV::Node(np) };
    let scan = PlanV::ScanNodes { label_filter: label, inline_props: seq![], variable: x };
    assert forall|d: EnvV| lists(#[trigger] executor::run(scan, d, st), x, labels, k, st) by {
        let ids = tables::lemma_scan(x, label, d, st);
        assert forall|i: u64| #[trigger]
            ids.contains(i) <==> i < st.nodes.len() && bears_first(
                st.nodes[i as int],
                labels,
                k,
            ) by {
            if ids.contains(i) {
                let j = choose|j: int| 0 <= j < ids.len() && ids[j] == i;
                let row = executor::run(scan, d, st).0->Ok_0.rows[j];
            }
            if i < st.nodes.len() {
                assert(ids.contains((i as int) as u64) <==> (st.nodes[i as int] matches Some(n) && (
                label matches Some(l) ==> n.labels.contains(l))));
                if let Some(n) = st.nodes[i as int] {
                    if let Some(l) = label {
                        if n.labels.contains(l) {
                            let m = choose|m: int| 0 <= m < n.labels.len() && n.labels[m] == l;
                            assert(n.labels[m] == l);
                            assert(text::has_text(n.labels, l));
                        }
                        if bears_first(st.nodes[i as int], labels, k) {
                            assert(text::has_text(n.labels, labels[0]));
                        }
                    }
                }
            }
        }
        assert(are_bearers(executor::run(scan, d, st), x, ids, labels, k, st));
    }
    lemma_label_filters(scan, x, labels, k, st);
    reveal_with_fuel(planner::with_parts, 2);
    let p = planner::with_labels(scan, x, labels, 1);
    assert(planner::node_scan(np, x) == p);
    assert(planner::with_part(PlanV::EmptyRow, part) == p);
    assert(planner::with_parts(PlanV::EmptyRow, seq![part], 0) == p);
    assert(planner::with_labels(scan, x, labels, k) == p);
    assert(lists(executor::run(p, env, st), x, labels, labels.len() as int, st));
    choose|ids: Seq<u64>|
        are_bearers(executor::run(p, env, st), x, ids, labels, labels.len() as int, st)
}

} // verus!
