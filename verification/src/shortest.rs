//! Shortest paths between two nodes.
use crate::aggregate::recs_outcome;
use crate::assoc;
use crate::backend::StorageBackend;
use crate::error::{CypherError, ErrV};
use crate::eval::{far_end, type_fits};
use crate::paths::{
    self, edge_ids_in_direction, path_chain_contains_sp, ARENA_CAPACITY, DEFAULT_MAX_HOPS,
};
use crate::plan::HopV;
use crate::rows::{self, add_col, add_opt_col, append_rows, Hop, Table, TableV};
use crate::semantics;
use crate::store::{self, StoreV};
use crate::value::{
    self, CypherValue, Edge, EdgeId, EdgeV, Node, NodeId, NodeV, Path, PathV, RecV, Record, ValV,
};
use std::collections::HashMap;
use vstd::prelude::*;

verus! {

broadcast use vstd::std_specs::hash::group_hash_axioms;

// ---------------------------------------------------------------------------
// The search, step by step
// ---------------------------------------------------------------------------

/// A chain of relationships, with the nodes that they lead to.
pub struct RouteV {
    pub edges: Seq<u64>,
    pub nodes: Seq<u64>,
    pub end: u64,
}

/// What is searched for: routes to a node with at least `min` relationships,
/// one of them or all.
pub struct GoalV {
    pub target: u64,
    pub min: u64,
    pub all: bool,
}

/// The state of a search.
pub struct SearchV {
    /// The routes from which it goes on.
    pub next: Seq<RouteV>,
    /// The nodes that were reached, each with the number of relationships.
    pub seen: Map<u64, u64>,
    /// The routes to the target.
    pub found: Seq<RouteV>,
    /// How many routes were tried.
    pub tried: nat,
    /// One route was wanted and is found.
    pub stopped: bool,
    /// There are too many routes.
    pub failed: bool,
}

/// The search after a route was tried with one more relationship. A node that
/// was reached before is not reached again, except by routes of the same
/// length where all of them are wanted.
pub open spec fn step(
    r: RouteV,
    id: u64,
    s: SearchV,
    depth: u64,
    g: GoalV,
    hop: HopV,
    st: StoreV,
) -> SearchV {
    match store::edge_at(st, id) {
        None => s,
        Some(e) => {
            let to = semantics::other_end(e, r.end, hop.direction);
            if r.edges.contains(id) || !semantics::of_type(hop.types, e.label) {
                s
            } else if s.seen.dom().contains(to) && (!g.all || s.seen[to] != depth) {
                s
            } else if s.tried >= ARENA_CAPACITY {
                SearchV { failed: true, ..s }
            } else {
                let n = RouteV { edges: r.edges.push(id), nodes: r.nodes.push(to), end: to };
                let hit = to == g.target && depth >= g.min;
                if hit && !g.all {
                    SearchV { found: s.found.push(n), stopped: true, tried: s.tried + 1, ..s }
                } else {
                    SearchV {
                        next: s.next.push(n),
                        seen: if s.seen.dom().contains(to) {
                            s.seen
                        } else {
                            s.seen.insert(to, depth)
                        },
                        found: if hit {
                            s.found.push(n)
                        } else {
                            s.found
                        },
                        tried: s.tried + 1,
                        ..s
                    }
                }
            }
        },
    }
}

/// The search after the relationships from the `j`-th on.
pub open spec fn steps(
    r: RouteV,
    ids: Seq<u64>,
    j: int,
    s: SearchV,
    depth: u64,
    g: GoalV,
    hop: HopV,
    st: StoreV,
) -> SearchV
    decreases ids.len() - j,
{
    if j < 0 || j >= ids.len() || s.stopped || s.failed {
        s
    } else {
        steps(r, ids, j + 1, step(r, ids[j], s, depth, g, hop, st), depth, g, hop, st)
    }
}

/// The search after the routes from the `i`-th on.
pub open spec fn sweep(
    routes: Seq<RouteV>,
    i: int,
    s: SearchV,
    depth: u64,
    g: GoalV,
    hop: HopV,
    st: StoreV,
) -> SearchV
    decreases routes.len() - i,
{
    if i < 0 || i >= routes.len() || s.stopped || s.failed {
        s
    } else {
        sweep(
            routes,
            i + 1,
            steps(
                routes[i],
                paths::ids_at(st, routes[i].end, hop.direction),
                0,
                s,
                depth,
                g,
                hop,
                st,
            ),
            depth,
            g,
            hop,
            st,
        )
    }
}

pub open spec fn arena_message() -> Seq<char> {
    "shortestPath traversal exceeded internal arena capacity"@
}

/// The routes that are found with at least `depth` relationships and at most as
/// many as are allowed. A search without a bound of its own goes no further than
/// the default limit.
pub open spec fn search(
    routes: Seq<RouteV>,
    seen: Map<u64, u64>,
    tried: nat,
    depth: u64,
    max: Option<u64>,
    g: GoalV,
    hop: HopV,
    st: StoreV,
) -> Result<Seq<RouteV>, ErrV>
    decreases paths::hop_limit(max) - depth + 1,
{
    if depth > paths::hop_limit(max) {
        Ok(seq![])
    } else {
        let s = sweep(
            routes,
            0,
            SearchV { next: seq![], seen, found: seq![], tried, stopped: false, failed: false },
            depth,
            g,
            hop,
            st,
        );
        if s.failed {
            Err(ErrV::Runtime(arena_message()))
        } else if s.found.len() > 0 {
            Ok(s.found)
        } else if s.next.len() == 0 || depth == paths::hop_limit(max) {
            Ok(seq![])
        } else {
            search(s.next, s.seen, s.tried, (depth + 1) as u64, max, g, hop, st)
        }
    }
}

/// The shortest routes from one node to another.
pub open spec fn shortest_routes(
    start: u64,
    max: Option<u64>,
    g: GoalV,
    hop: HopV,
    st: StoreV,
) -> Result<Seq<RouteV>, ErrV> {
    search(
        seq![RouteV { edges: seq![], nodes: seq![], end: start }],
        Map::empty().insert(start, 0u64),
        0,
        1,
        max,
        g,
        hop,
        st,
    )
}

// ---------------------------------------------------------------------------
// Rows
// ---------------------------------------------------------------------------

/// The relationships of a route from the `i`-th on, with the nodes that they
/// lead to.
pub open spec fn route_edges(r: RouteV, i: int, acc: Seq<EdgeV>, st: StoreV) -> Seq<EdgeV>
    decreases r.edges.len() - i,
{
    if i < 0 || i >= r.edges.len() || i >= r.nodes.len() {
        acc
    } else {
        match (store::edge_at(st, r.edges[i]), store::node_at(st, r.nodes[i])) {
            (Some(e), Some(n)) => route_edges(r, i + 1, acc.push(e), st),
            _ => route_edges(r, i + 1, acc, st),
        }
    }
}

pub open spec fn route_nodes(r: RouteV, i: int, acc: Seq<NodeV>, st: StoreV) -> Seq<NodeV>
    decreases r.edges.len() - i,
{
    if i < 0 || i >= r.edges.len() || i >= r.nodes.len() {
        acc
    } else {
        match (store::edge_at(st, r.edges[i]), store::node_at(st, r.nodes[i])) {
            (Some(e), Some(n)) => route_nodes(r, i + 1, acc.push(n), st),
            _ => route_nodes(r, i + 1, acc, st),
        }
    }
}

/// The path that a route from a node is.
pub open spec fn route_path(start: u64, r: RouteV, st: StoreV) -> PathV {
    PathV {
        nodes: route_nodes(
            r,
            0,
            match store::node_at(st, start) {
                Some(n) => seq![n],
                None => seq![],
            },
            st,
        ),
        relationships: route_edges(r, 0, seq![], st),
    }
}

pub open spec fn rel_values(edges: Seq<EdgeV>) -> Seq<ValV> {
    Seq::new(edges.len(), |i: int| ValV::Relationship(edges[i]))
}

/// A row with a path.
pub open spec fn path_row(rec: RecV, path_variable: Seq<char>, hop: HopV, p: PathV) -> RecV {
    rows::bind_opt(
        assoc::bind(rec, path_variable, ValV::Path(p)),
        hop.rel,
        ValV::List(rel_values(p.relationships)),
    )
}

pub open spec fn path_rows(
    rec: RecV,
    path_variable: Seq<char>,
    start: u64,
    routes: Seq<RouteV>,
    hop: HopV,
    st: StoreV,
) -> Seq<RecV> {
    Seq::new(
        routes.len(),
        |i: int| path_row(rec, path_variable, hop, route_path(start, routes[i], st)),
    )
}

/// The rows for one row. From a node to itself there is only the path without
/// relationships, where that is allowed.
pub open spec fn shortest_row(
    rec: RecV,
    path_variable: Seq<char>,
    start: u64,
    max: Option<u64>,
    g: GoalV,
    hop: HopV,
    st: StoreV,
) -> Result<Seq<RecV>, ErrV> {
    if start == g.target {
        match store::node_at(st, start) {
            Some(n) => if g.min == 0 {
                Ok(
                    seq![
                        path_row(
                            rec,
                            path_variable,
                            hop,
                            PathV { nodes: seq![n], relationships: seq![] },
                        ),
                    ],
                )
            } else {
                Ok(seq![])
            },
            None => Ok(seq![]),
        }
    } else {
        match shortest_routes(start, max, g, hop, st) {
            Err(x) => Err(x),
            Ok(routes) => Ok(path_rows(rec, path_variable, start, routes, hop, st)),
        }
    }
}

pub open spec fn shortest_rows(
    rows: Seq<RecV>,
    i: int,
    acc: Seq<RecV>,
    path_variable: Seq<char>,
    min: u64,
    max: Option<u64>,
    all: bool,
    hop: HopV,
    st: StoreV,
) -> Result<Seq<RecV>, ErrV>
    decreases rows.len() - i,
{
    if i < 0 || i >= rows.len() {
        Ok(acc)
    } else {
        match (assoc::lookup(rows[i], hop.src), assoc::lookup(rows[i], hop.dst)) {
            (Some(ValV::Node(a)), Some(ValV::Node(b))) => match shortest_row(
                rows[i],
                path_variable,
                a.id,
                max,
                GoalV { target: b.id, min, all },
                hop,
                st,
            ) {
                Err(x) => Err(x),
                Ok(more) => shortest_rows(
                    rows,
                    i + 1,
                    acc + more,
                    path_variable,
                    min,
                    max,
                    all,
                    hop,
                    st,
                ),
            },
            _ => shortest_rows(rows, i + 1, acc, path_variable, min, max, all, hop, st),
        }
    }
}

// ---------------------------------------------------------------------------
// What the search finds
// ---------------------------------------------------------------------------

/// The node to which a relationship leads from another, if it can be followed.
pub open spec fn follow(m: u64, id: u64, hop: HopV, st: StoreV) -> Option<u64> {
    match store::edge_at(st, id) {
        Some(e) => if semantics::of_type(hop.types, e.label) && paths::leads_on(
            e,
            m,
            hop.direction,
        ) {
            Some(semantics::other_end(e, m, hop.direction))
        } else {
            None
        },
        None => None,
    }
}

/// From each node that was reached with fewer than `d` relationships, every
/// relationship leads to a node that was reached with at most one more.
pub open spec fn explored(seen: Map<u64, u64>, d: int, hop: HopV, st: StoreV) -> bool {
    forall|m: u64, id: u64|
        #![trigger follow(m, id, hop, st)]
        seen.dom().contains(m) && seen[m] < d && follow(m, id, hop, st) is Some
            ==> seen.dom().contains(follow(m, id, hop, st)->0) && seen[follow(m, id, hop, st)->0]
            <= seen[m] + 1
}

/// Both ends of every relationship of a route were reached.
pub open spec fn covered(r: RouteV, seen: Map<u64, u64>, st: StoreV) -> bool {
    forall|i: int|
        0 <= i < r.edges.len() ==> (store::edge_at(st, #[trigger] r.edges[i]) matches Some(e)
            ==> seen.dom().contains(e.src) && seen.dom().contains(e.dst))
}

/// A route of `d` relationships from a node.
pub open spec fn is_route(r: RouteV, start: u64, d: int, hop: HopV, st: StoreV) -> bool {
    &&& r.edges.len() == d
    &&& r.nodes.len() == d
    &&& paths::walk_end(start, r.edges, hop.types, hop.direction, st) == Some(r.end)
}

/// What holds before routes of `d` relationships are tried.
spec fn ready(
    routes: Seq<RouteV>,
    seen: Map<u64, u64>,
    start: u64,
    d: int,
    g: GoalV,
    hop: HopV,
    st: StoreV,
) -> bool {
    &&& d >= 1
    &&& seen.dom().contains(start) && seen[start] == 0
    &&& !seen.dom().contains(g.target)
    &&& explored(seen, d - 1, hop, st)
    &&& forall|m: u64| #[trigger] seen.dom().contains(m) ==> seen[m] <= d - 1
    &&& forall|m: u64|
        #![trigger seen.dom().contains(m)]
        seen.dom().contains(m) && seen[m] == d - 1 ==> exists|i: int|
            0 <= i < routes.len() && (#[trigger] routes[i]).end == m
    &&& forall|i: int|
        0 <= i < routes.len() ==> {
            let r = #[trigger] routes[i];
            is_route(r, start, d - 1, hop, st) && covered(r, seen, st) && seen.dom().contains(
                r.end,
            )
        }
}

/// What holds while routes of `d` relationships are tried.
spec fn grown(
    s: SearchV,
    seen: Map<u64, u64>,
    start: u64,
    d: int,
    g: GoalV,
    hop: HopV,
    st: StoreV,
) -> bool {
    &&& forall|m: u64|
        #![trigger seen.dom().contains(m)]
        seen.dom().contains(m) ==> s.seen.dom().contains(m) && s.seen[m] == seen[m]
    &&& forall|m: u64|
        #![trigger s.seen.dom().contains(m)]
        s.seen.dom().contains(m) ==> seen.dom().contains(m) || (s.seen[m] == d && exists|i: int|
            0 <= i < s.next.len() && (#[trigger] s.next[i]).end == m)
    &&& forall|i: int|
        0 <= i < s.next.len() ==> {
            let r = #[trigger] s.next[i];
            is_route(r, start, d, hop, st) && covered(r, s.seen, st) && s.seen.dom().contains(
                r.end,
            )
        }
    &&& forall|i: int|
        0 <= i < s.found.len() ==> {
            let r = #[trigger] s.found[i];
            is_route(r, start, d, hop, st) && r.end == g.target
        }
    &&& s.found.len() == 0 ==> !s.seen.dom().contains(g.target) && !s.stopped
}

proof fn lemma_step(
    r: RouteV,
    id: u64,
    s: SearchV,
    seen: Map<u64, u64>,
    start: u64,
    depth: u64,
    g: GoalV,
    hop: HopV,
    st: StoreV,
)
    requires
        grown(s, seen, start, depth as int, g, hop, st),
        !s.stopped,
        depth >= 1,
        depth >= g.min,
        is_route(r, start, depth - 1, hop, st),
        covered(r, seen, st),
        seen.dom().contains(r.end),
        forall|m: u64| #[trigger] seen.dom().contains(m) ==> seen[m] <= depth - 1,
        store::edge_at(st, id) matches Some(e) ==> paths::leads_on(e, r.end, hop.direction),
    ensures
        grown(step(r, id, s, depth, g, hop, st), seen, start, depth as int, g, hop, st),
        ({
            let t = step(r, id, s, depth, g, hop, st);
            &&& forall|m: u64| #[trigger] s.seen.dom().contains(m) ==> t.seen.dom().contains(m)
            &&& s.found.len() <= t.found.len()
            &&& (follow(r.end, id, hop, st) is Some && !t.stopped && !t.failed)
                ==> t.seen.dom().contains(follow(r.end, id, hop, st)->0)
        }),
{
    let t = step(r, id, s, depth, g, hop, st);
    match store::edge_at(st, id) {
        None => {},
        Some(e) => {
            let to = semantics::other_end(e, r.end, hop.direction);
            if r.edges.contains(id) {
                let i = choose|i: int| 0 <= i < r.edges.len() && r.edges[i] == id;
                assert(store::edge_at(st, r.edges[i]) is Some);
                assert(seen.dom().contains(e.src) && seen.dom().contains(e.dst));
                assert(seen.dom().contains(to));
            } else if !semantics::of_type(hop.types, e.label) {
            } else if s.seen.dom().contains(to) && (!g.all || s.seen[to] != depth) {
            } else if s.tried >= ARENA_CAPACITY {
            } else {
                let n = RouteV { edges: r.edges.push(id), nodes: r.nodes.push(to), end: to };
                assert(n.edges.drop_last() =~= r.edges);
                assert(is_route(n, start, depth as int, hop, st));
                let hit = to == g.target && depth >= g.min;
                if hit && !g.all {
                    assert(t.found[t.found.len() - 1] == n);
                    assert forall|i: int| 0 <= i < t.found.len() implies {
                        let q = #[trigger] t.found[i];
                        is_route(q, start, depth as int, hop, st) && q.end == g.target
                    } by {
                        if i < s.found.len() {
                            assert(t.found[i] == s.found[i]);
                        }
                    }
                } else {
                    assert(t.next == s.next.push(n));
                    assert(t.seen.dom().contains(to));
                    assert(covered(n, t.seen, st)) by {
                        assert forall|i: int| 0 <= i < n.edges.len() implies (store::edge_at(
                            st,
                            #[trigger] n.edges[i],
                        ) matches Some(x) ==> t.seen.dom().contains(x.src)
                            && t.seen.dom().contains(x.dst)) by {
                            if i < r.edges.len() {
                                assert(n.edges[i] == r.edges[i]);
                            } else {
                                assert(n.edges[i] == id);
                                assert(s.seen.dom().contains(r.end));
                            }
                        }
                    }
                    assert forall|i: int| 0 <= i < t.next.len() implies {
                        let q = #[trigger] t.next[i];
                        is_route(q, start, depth as int, hop, st) && covered(q, t.seen, st)
                            && t.seen.dom().contains(q.end)
                    } by {
                        if i < s.next.len() {
                            assert(t.next[i] == s.next[i]);
                            let q = s.next[i];
                            assert(covered(q, t.seen, st)) by {
                                assert forall|k: int| 0 <= k < q.edges.len() implies (
                                store::edge_at(st, #[trigger] q.edges[k]) matches Some(x)
                                    ==> t.seen.dom().contains(x.src) && t.seen.dom().contains(
                                    x.dst,
                                )) by {
                                    assert(store::edge_at(st, q.edges[k]) matches Some(x)
                                        ==> s.seen.dom().contains(x.src)
                                        && s.seen.dom().contains(x.dst));
                                }
                            }
                        }
                    }
                    assert forall|i: int| 0 <= i < t.found.len() implies {
                        let q = #[trigger] t.found[i];
                        is_route(q, start, depth as int, hop, st) && q.end == g.target
                    } by {
                        if i < s.found.len() {
                            assert(t.found[i] == s.found[i]);
                        }
                    }
                }
            }
        },
    }
    assert forall|m: u64|
        #![trigger t.seen.dom().contains(m)]
        t.seen.dom().contains(m) && !seen.dom().contains(m) implies t.seen[m] == depth && exists|
        i: int,
    |
        0 <= i < t.next.len() && (#[trigger] t.next[i]).end == m by {
        if s.seen.dom().contains(m) {
            let i = choose|i: int| 0 <= i < s.next.len() && (#[trigger] s.next[i]).end == m;
            assert(t.next[i] == s.next[i]);
        } else {
            assert(t.next[s.next.len() as int].end == m);
        }
    }
}

proof fn lemma_steps(
    r: RouteV,
    ids: Seq<u64>,
    j: int,
    s: SearchV,
    seen: Map<u64, u64>,
    start: u64,
    depth: u64,
    g: GoalV,
    hop: HopV,
    st: StoreV,
)
    requires
        0 <= j <= ids.len(),
        grown(s, seen, start, depth as int, g, hop, st),
        depth >= 1,
        depth >= g.min,
        is_route(r, start, depth - 1, hop, st),
        covered(r, seen, st),
        seen.dom().contains(r.end),
        forall|m: u64| #[trigger] seen.dom().contains(m) ==> seen[m] <= depth - 1,
        forall|i: int|
            0 <= i < ids.len() ==> (store::edge_at(st, #[trigger] ids[i]) matches Some(e)
                ==> paths::leads_on(e, r.end, hop.direction)),
    ensures
        grown(steps(r, ids, j, s, depth, g, hop, st), seen, start, depth as int, g, hop, st),
        ({
            let t = steps(r, ids, j, s, depth, g, hop, st);
            &&& forall|m: u64| #[trigger] s.seen.dom().contains(m) ==> t.seen.dom().contains(m)
            &&& s.found.len() <= t.found.len()
            &&& (!t.stopped && !t.failed) ==> forall|i: int|
                j <= i < ids.len() && follow(r.end, #[trigger] ids[i], hop, st) is Some
                    ==> t.seen.dom().contains(follow(r.end, ids[i], hop, st)->0)
        }),
    decreases ids.len() - j,
{
    if j < ids.len() && !s.stopped && !s.failed {
        let n = step(r, ids[j], s, depth, g, hop, st);
        lemma_step(r, ids[j], s, seen, start, depth, g, hop, st);
        lemma_steps(r, ids, j + 1, n, seen, start, depth, g, hop, st);
        let t = steps(r, ids, j, s, depth, g, hop, st);
        assert(t == steps(r, ids, j + 1, n, depth, g, hop, st));
        if !t.stopped && !t.failed {
            lemma_steps_flags(r, ids, j + 1, n, depth, g, hop, st);
            assert forall|i: int|
                j <= i < ids.len() && follow(
                    r.end,
                    #[trigger] ids[i],
                    hop,
                    st,
                ) is Some implies t.seen.dom().contains(follow(r.end, ids[i], hop, st)->0) by {
                if i == j {
                    assert(n.seen.dom().contains(follow(r.end, ids[j], hop, st)->0));
                }
            }
        }
    }
}

/// A search that ended stays so.
proof fn lemma_steps_flags(
    r: RouteV,
    ids: Seq<u64>,
    j: int,
    s: SearchV,
    depth: u64,
    g: GoalV,
    hop: HopV,
    st: StoreV,
)
    ensures
        s.stopped || s.failed ==> steps(r, ids, j, s, depth, g, hop, st) == s,
{
}

proof fn lemma_sweep_flags(
    routes: Seq<RouteV>,
    i: int,
    s: SearchV,
    depth: u64,
    g: GoalV,
    hop: HopV,
    st: StoreV,
)
    ensures
        s.stopped || s.failed ==> sweep(routes, i, s, depth, g, hop, st) == s,
{
}

proof fn lemma_sweep(
    routes: Seq<RouteV>,
    i: int,
    s: SearchV,
    seen: Map<u64, u64>,
    start: u64,
    depth: u64,
    g: GoalV,
    hop: HopV,
    st: StoreV,
)
    requires
        store::well_formed(st),
        0 <= i <= routes.len(),
        ready(routes, seen, start, depth as int, g, hop, st),
        grown(s, seen, start, depth as int, g, hop, st),
        depth >= g.min,
        !s.stopped && !s.failed ==> forall|q: int, id: u64|
            #![trigger follow(routes[q].end, id, hop, st)]
            0 <= q < i && follow(routes[q].end, id, hop, st) is Some ==> s.seen.dom().contains(
                follow(routes[q].end, id, hop, st)->0,
            ),
    ensures
        ({
            let t = sweep(routes, i, s, depth, g, hop, st);
            &&& grown(t, seen, start, depth as int, g, hop, st)
            &&& (!t.stopped && !t.failed) ==> forall|q: int, id: u64|
                #![trigger follow(routes[q].end, id, hop, st)]
                0 <= q < routes.len() && follow(routes[q].end, id, hop, st) is Some
                    ==> t.seen.dom().contains(follow(routes[q].end, id, hop, st)->0)
        }),
    decreases routes.len() - i,
{
    if i < routes.len() && !s.stopped && !s.failed {
        let r = routes[i];
        let ids = paths::ids_at(st, r.end, hop.direction);
        paths::lemma_ids_at(st, r.end, hop.direction);
        lemma_steps(r, ids, 0, s, seen, start, depth, g, hop, st);
        let n = steps(r, ids, 0, s, depth, g, hop, st);
        if !n.stopped && !n.failed {
            assert forall|q: int, id: u64|
                #![trigger follow(routes[q].end, id, hop, st)]
                0 <= q < i + 1 && follow(
                    routes[q].end,
                    id,
                    hop,
                    st,
                ) is Some implies n.seen.dom().contains(follow(routes[q].end, id, hop, st)->0) by {
                if q == i {
                    assert(store::edge_at(st, id) is Some);
                    assert(ids.contains(id));
                    let k = choose|k: int| 0 <= k < ids.len() && ids[k] == id;
                    assert(follow(r.end, ids[k], hop, st) is Some);
                } else {
                    assert(s.seen.dom().contains(follow(routes[q].end, id, hop, st)->0));
                }
            }
        }
        lemma_sweep(routes, i + 1, n, seen, start, depth, g, hop, st);
    }
}

/// A chain of relationships leads to a node that was reached.
proof fn lemma_walk_seen(
    start: u64,
    edges: Seq<u64>,
    seen: Map<u64, u64>,
    d: int,
    hop: HopV,
    st: StoreV,
)
    requires
        seen.dom().contains(start),
        seen[start] == 0,
        explored(seen, d, hop, st),
        edges.len() <= d,
        paths::walk_end(start, edges, hop.types, hop.direction, st) is Some,
    ensures
        ({
            let n = paths::walk_end(start, edges, hop.types, hop.direction, st)->0;
            seen.dom().contains(n) && seen[n] <= edges.len()
        }),
    decreases edges.len(),
{
    if edges.len() > 0 {
        lemma_walk_seen(start, edges.drop_last(), seen, d, hop, st);
        let m = paths::walk_end(start, edges.drop_last(), hop.types, hop.direction, st)->0;
        assert(follow(m, edges.last(), hop, st) is Some);
    }
}

/// The same where everything that was reached is explored.
proof fn lemma_walk_closed(
    start: u64,
    edges: Seq<u64>,
    seen: Map<u64, u64>,
    d: int,
    hop: HopV,
    st: StoreV,
)
    requires
        seen.dom().contains(start),
        explored(seen, d, hop, st),
        forall|m: u64| #[trigger] seen.dom().contains(m) ==> seen[m] < d,
        paths::walk_end(start, edges, hop.types, hop.direction, st) is Some,
    ensures
        seen.dom().contains(paths::walk_end(start, edges, hop.types, hop.direction, st)->0),
    decreases edges.len(),
{
    if edges.len() > 0 {
        lemma_walk_closed(start, edges.drop_last(), seen, d, hop, st);
        let m = paths::walk_end(start, edges.drop_last(), hop.types, hop.direction, st)->0;
        assert(follow(m, edges.last(), hop, st) is Some);
    }
}

/// No chain of at most `n` relationships leads from one node to another.
pub open spec fn out_of_reach(start: u64, target: u64, n: int, hop: HopV, st: StoreV) -> bool {
    forall|edges: Seq<u64>|
        edges.len() <= n ==> #[trigger] paths::walk_end(
            start,
            edges,
            hop.types,
            hop.direction,
            st,
        ) != Some(target)
}

/// After a round that found nothing, all is ready for the next one.
proof fn lemma_ready_again(
    s: SearchV,
    seen: Map<u64, u64>,
    routes: Seq<RouteV>,
    start: u64,
    depth: u64,
    g: GoalV,
    hop: HopV,
    st: StoreV,
)
    requires
        ready(routes, seen, start, depth as int, g, hop, st),
        grown(s, seen, start, depth as int, g, hop, st),
        s.found.len() == 0,
        forall|q: int, id: u64|
            #![trigger follow(routes[q].end, id, hop, st)]
            0 <= q < routes.len() && follow(routes[q].end, id, hop, st) is Some
                ==> s.seen.dom().contains(follow(routes[q].end, id, hop, st)->0),
    ensures
        explored(s.seen, depth as int, hop, st),
        ready(s.next, s.seen, start, depth + 1, g, hop, st),
{
    assert(explored(s.seen, depth as int, hop, st)) by {
        assert forall|m: u64, id: u64|
            #![trigger follow(m, id, hop, st)]
            s.seen.dom().contains(m) && s.seen[m] < depth && follow(
                m,
                id,
                hop,
                st,
            ) is Some implies s.seen.dom().contains(follow(m, id, hop, st)->0)
            && s.seen[follow(m, id, hop, st)->0] <= s.seen[m] + 1 by {
            assert(seen.dom().contains(m));
            let n = follow(m, id, hop, st)->0;
            if seen[m] == depth - 1 {
                let q = choose|q: int|
                    0 <= q < routes.len() && (#[trigger] routes[q]).end == m;
                assert(follow(routes[q].end, id, hop, st) is Some);
                assert(s.seen.dom().contains(n));
                if seen.dom().contains(n) {
                    assert(s.seen[n] == seen[n]);
                }
            } else {
                assert(seen.dom().contains(n));
                assert(s.seen[n] == seen[n]);
            }
        }
    }
    assert(ready(s.next, s.seen, start, depth + 1, g, hop, st)) by {
        assert forall|m: u64| #[trigger] s.seen.dom().contains(m) implies s.seen[m]
            <= depth by {
            if seen.dom().contains(m) {
                assert(s.seen[m] == seen[m]);
            }
        }
        assert forall|m: u64|
            #![trigger s.seen.dom().contains(m)]
            s.seen.dom().contains(m) && s.seen[m] == depth implies exists|i: int|
            0 <= i < s.next.len() && (#[trigger] s.next[i]).end == m by {
            if seen.dom().contains(m) {
                assert(s.seen[m] == seen[m]);
                assert(seen[m] <= depth - 1);
            }
        }
    }
}

proof fn lemma_search(
    routes: Seq<RouteV>,
    seen: Map<u64, u64>,
    tried: nat,
    start: u64,
    depth: u64,
    max: Option<u64>,
    g: GoalV,
    hop: HopV,
    st: StoreV,
)
    requires
        store::well_formed(st),
        ready(routes, seen, start, depth as int, g, hop, st),
        depth >= g.min,
        depth <= paths::hop_limit(max) + 1,
    ensures
        search(routes, seen, tried, depth, max, g, hop, st) matches Ok(found) ==> {
            &&& found.len() == 0 ==> out_of_reach(start, g.target, paths::hop_limit(max) as int, hop, st)
            &&& forall|i: int|
                0 <= i < found.len() ==> {
                    let r = #[trigger] found[i];
                    is_route(r, start, r.edges.len() as int, hop, st) && r.end == g.target
                        && r.edges.len() <= paths::hop_limit(max) && out_of_reach(
                        start,
                        g.target,
                        r.edges.len() - 1,
                        hop,
                        st,
                    )
                }
        },
    decreases paths::hop_limit(max) - depth + 1,
{
    assert(out_of_reach(start, g.target, depth - 1, hop, st)) by {
        assert forall|edges: Seq<u64>| edges.len() <= depth - 1 implies #[trigger] paths::walk_end(
            start,
            edges,
            hop.types,
            hop.direction,
            st,
        ) != Some(g.target) by {
            if paths::walk_end(start, edges, hop.types, hop.direction, st) is Some {
                lemma_walk_seen(start, edges, seen, depth - 1, hop, st);
            }
        }
    }
    if depth <= paths::hop_limit(max) {
        let s0 = SearchV {
            next: seq![],
            seen,
            found: seq![],
            tried,
            stopped: false,
            failed: false,
        };
        lemma_sweep(routes, 0, s0, seen, start, depth, g, hop, st);
        let s = sweep(routes, 0, s0, depth, g, hop, st);
        if !s.failed && s.found.len() == 0 {
            assert(!s.stopped);
            lemma_ready_again(s, seen, routes, start, depth, g, hop, st);
            if s.next.len() == 0 {
                assert forall|m: u64| #[trigger] s.seen.dom().contains(m) implies s.seen[m] < depth by {
                    assert(seen.dom().contains(m));
                }
                assert forall|edges: Seq<u64>|
                    edges.len() <= paths::hop_limit(max) implies #[trigger] paths::walk_end(
                    start,
                    edges,
                    hop.types,
                    hop.direction,
                    st,
                ) != Some(g.target) by {
                    if paths::walk_end(start, edges, hop.types, hop.direction, st) is Some {
                        lemma_walk_closed(start, edges, s.seen, depth as int, hop, st);
                    }
                }
            } else if depth == paths::hop_limit(max) {
                assert forall|edges: Seq<u64>|
                    edges.len() <= paths::hop_limit(max) implies #[trigger] paths::walk_end(
                    start,
                    edges,
                    hop.types,
                    hop.direction,
                    st,
                ) != Some(g.target) by {
                    if paths::walk_end(start, edges, hop.types, hop.direction, st) is Some {
                        lemma_walk_seen(start, edges, s.seen, depth as int, hop, st);
                    }
                }
            } else {
                lemma_search(
                    s.next,
                    s.seen,
                    s.tried,
                    start,
                    (depth + 1) as u64,
                    max,
                    g,
                    hop,
                    st,
                );
            }
        }
    }
}

/// `shortestPath` finds a path wherever there is one that is not too long, and
/// none that is found is longer than any other chain of fitting relationships
/// between the two nodes.
pub proof fn lemma_shortest(start: u64, max: Option<u64>, g: GoalV, hop: HopV, st: StoreV)
    requires
        store::well_formed(st),
        start != g.target,
        g.min <= 1,
    ensures
        shortest_routes(start, max, g, hop, st) matches Ok(found) ==> {
            &&& found.len() == 0 ==> out_of_reach(start, g.target, paths::hop_limit(max) as int, hop, st)
            &&& forall|i: int|
                0 <= i < found.len() ==> {
                    let r = #[trigger] found[i];
                    is_route(r, start, r.edges.len() as int, hop, st) && r.end == g.target
                        && r.edges.len() <= paths::hop_limit(max) && out_of_reach(
                        start,
                        g.target,
                        r.edges.len() - 1,
                        hop,
                        st,
                    )
                }
        },
{
    let routes = seq![RouteV { edges: seq![], nodes: seq![], end: start }];
    let seen = Map::<u64, u64>::empty().insert(start, 0u64);
    assert(routes[0].end == start);
    assert(ready(routes, seen, start, 1, g, hop, st));
    lemma_search(routes, seen, 0, start, 1, max, g, hop, st);
}

// ---------------------------------------------------------------------------
// All of the shortest routes
// ---------------------------------------------------------------------------

/// One of the routes takes these relationships.
pub open spec fn has_route(routes: Seq<RouteV>, edges: Seq<u64>) -> bool {
    exists|i: int| 0 <= i < routes.len() && (#[trigger] routes[i]).edges == edges
}

/// No two of the routes take the same relationships.
pub open spec fn told_apart(routes: Seq<RouteV>) -> bool {
    forall|i: int, j: int|
        0 <= i < j < routes.len() ==> (#[trigger] routes[i]).edges != (#[trigger] routes[j]).edges
}

/// Each route of `d` relationships to a node that no shorter one leads to is
/// there, once.
spec fn full(
    routes: Seq<RouteV>,
    seen: Map<u64, u64>,
    start: u64,
    d: int,
    hop: HopV,
    st: StoreV,
) -> bool {
    &&& told_apart(routes)
    &&& forall|edges: Seq<u64>|
        #![trigger paths::walk_end(start, edges, hop.types, hop.direction, st)]
        edges.len() == d && (paths::walk_end(
            start,
            edges,
            hop.types,
            hop.direction,
            st,
        ) matches Some(m) && seen.dom().contains(m) && seen[m] == d) ==> has_route(routes, edges)
}

/// A route goes on from one of the first `q` routes.
spec fn goes_on(edges: Seq<u64>, routes: Seq<RouteV>, q: int) -> bool {
    exists|p: int|
        0 <= p < q && p < routes.len() && edges.drop_last() == (#[trigger] routes[p]).edges
}

/// What holds of the routes of `d` relationships after those that go on from
/// the first `q` routes, and from the next along the first `j` relationships.
spec fn gathered(
    s: SearchV,
    routes: Seq<RouteV>,
    q: int,
    ids: Seq<u64>,
    j: int,
    d: int,
    g: GoalV,
    hop: HopV,
    st: StoreV,
) -> bool {
    &&& !s.stopped
    &&& told_apart(s.next)
    &&& told_apart(s.found)
    &&& forall|i: int|
        0 <= i < s.next.len() ==> {
            let n = #[trigger] s.next[i];
            &&& n.edges.len() > 0
            &&& goes_on(n.edges, routes, q) || (n.edges.drop_last() == routes[q].edges && ids.take(
                j,
            ).contains(n.edges.last()))
            &&& n.end == g.target ==> has_route(s.found, n.edges)
        }
    &&& forall|i: int| 0 <= i < s.found.len() ==> has_route(s.next, (#[trigger] s.found[i]).edges)
    &&& forall|p: int, id: u64|
        #![trigger follow(routes[p].end, id, hop, st)]
        0 <= p < q && p < routes.len() ==> (follow(routes[p].end, id, hop, st) matches Some(to)
            ==> s.seen.dom().contains(to) && (s.seen[to] == d ==> has_route(
            s.next,
            routes[p].edges.push(id),
        )))
    &&& forall|k: int|
        0 <= k < j && k < ids.len() ==> (follow(
            routes[q].end,
            #[trigger] ids[k],
            hop,
            st,
        ) matches Some(to) ==> s.seen.dom().contains(to) && (s.seen[to] == d ==> has_route(
            s.next,
            routes[q].edges.push(ids[k]),
        )))
}

/// What one set of routes has, a longer one has.
proof fn lemma_has_pushed(routes: Seq<RouteV>, n: RouteV)
    ensures
        forall|edges: Seq<u64>|
            has_route(routes, edges) ==> #[trigger] has_route(routes.push(n), edges),
        has_route(routes.push(n), n.edges),
        !has_route(routes, n.edges) && told_apart(routes) ==> told_apart(routes.push(n)),
{
    let more = routes.push(n);
    assert(more[routes.len() as int] == n);
    assert forall|edges: Seq<u64>| has_route(routes, edges) implies #[trigger] has_route(
        more,
        edges,
    ) by {
        let i = choose|i: int| 0 <= i < routes.len() && (#[trigger] routes[i]).edges == edges;
        assert(more[i] == routes[i]);
    }
    if !has_route(routes, n.edges) && told_apart(routes) {
        assert forall|i: int, j: int| 0 <= i < j < more.len() implies (#[trigger] more[i]).edges
            != (#[trigger] more[j]).edges by {
            assert(more[i] == routes[i]);
            if j < routes.len() {
                assert(more[j] == routes[j]);
            }
        }
    }
}

proof fn lemma_gather_step(
    s: SearchV,
    seen: Map<u64, u64>,
    routes: Seq<RouteV>,
    q: int,
    ids: Seq<u64>,
    j: int,
    start: u64,
    depth: u64,
    g: GoalV,
    hop: HopV,
    st: StoreV,
)
    requires
        store::well_formed(st),
        0 <= q < routes.len(),
        0 <= j < ids.len(),
        ids == paths::ids_at(st, routes[q].end, hop.direction),
        g.all,
        ready(routes, seen, start, depth as int, g, hop, st),
        grown(s, seen, start, depth as int, g, hop, st),
        told_apart(routes),
        depth >= g.min,
        gathered(s, routes, q, ids, j, depth as int, g, hop, st),
        !step(routes[q], ids[j], s, depth, g, hop, st).failed,
    ensures
        gathered(
            step(routes[q], ids[j], s, depth, g, hop, st),
            routes,
            q,
            ids,
            j + 1,
            depth as int,
            g,
            hop,
            st,
        ),
{
    let r = routes[q];
    let id = ids[j];
    let t = step(r, id, s, depth, g, hop, st);
    let d = depth as int;
    paths::lemma_ids_at(st, r.end, hop.direction);
    let e = store::edge_at(st, id)->0;
    let to = semantics::other_end(e, r.end, hop.direction);
    assert(ids.take(j + 1) =~= ids.take(j).push(id));
    assert(ids.take(j + 1).contains(id)) by {
        assert(ids.take(j + 1)[j] == id);
    }
    assert forall|x: u64| ids.take(j).contains(x) implies #[trigger] ids.take(j + 1).contains(x) by {
        let k = choose|k: int| 0 <= k < ids.take(j).len() && ids.take(j)[k] == x;
        assert(ids.take(j + 1)[k] == x);
    }
    if r.edges.contains(id) {
        let i = choose|i: int| 0 <= i < r.edges.len() && r.edges[i] == id;
        assert(store::edge_at(st, r.edges[i]) is Some);
        assert(seen.dom().contains(to));
        assert(s.seen[to] == seen[to]);
    } else if !semantics::of_type(hop.types, e.label) {
    } else if s.seen.dom().contains(to) && s.seen[to] != depth {
    } else {
        let n = RouteV { edges: r.edges.push(id), nodes: r.nodes.push(to), end: to };
        assert(n.edges.drop_last() =~= r.edges);
        assert(n.edges.last() == id);
        assert(t.next == s.next.push(n));
        assert(!has_route(s.next, n.edges)) by {
            if has_route(s.next, n.edges) {
                let i = choose|i: int| 0 <= i < s.next.len() && (#[trigger] s.next[i]).edges
                    == n.edges;
                if goes_on(n.edges, routes, q) {
                    let p = choose|p: int|
                        0 <= p < q && p < routes.len() && n.edges.drop_last() == (
                        #[trigger] routes[p]).edges;
                    assert(routes[p].edges != routes[q].edges);
                } else {
                    let k = choose|k: int| 0 <= k < ids.take(j).len() && ids.take(j)[k] == id;
                    assert(ids[k] == ids[j]);
                    assert(e.src == r.end && e.dst == r.end);
                    assert(seen.dom().contains(r.end));
                    assert(s.seen[r.end] == seen[r.end]);
                }
            }
        }
        assert(!has_route(s.found, n.edges)) by {
            if has_route(s.found, n.edges) {
                let i = choose|i: int| 0 <= i < s.found.len() && (#[trigger] s.found[i]).edges
                    == n.edges;
                assert(has_route(s.next, s.found[i].edges));
            }
        }
        lemma_has_pushed(s.next, n);
        lemma_has_pushed(s.found, n);
        assert forall|i: int| 0 <= i < t.next.len() implies {
            let x = #[trigger] t.next[i];
            &&& x.edges.len() > 0
            &&& goes_on(x.edges, routes, q) || (x.edges.drop_last() == routes[q].edges && ids.take(
                j + 1,
            ).contains(x.edges.last()))
            &&& x.end == g.target ==> has_route(t.found, x.edges)
        } by {
            if i < s.next.len() {
                assert(t.next[i] == s.next[i]);
            } else {
                assert(t.next[i] == n);
            }
        }
        assert forall|i: int| 0 <= i < t.found.len() implies has_route(
            t.next,
            (#[trigger] t.found[i]).edges,
        ) by {
            if i < s.found.len() {
                assert(t.found[i] == s.found[i]);
                assert(has_route(s.next, s.found[i].edges));
            } else {
                assert(t.found[i] == n);
            }
        }
    }
    assert(forall|m: u64| #[trigger]
        s.seen.dom().contains(m) ==> t.seen.dom().contains(m) && t.seen[m] == s.seen[m]);
    assert forall|p: int, x: u64|
        #![trigger follow(routes[p].end, x, hop, st)]
        0 <= p < q && p < routes.len() implies (follow(routes[p].end, x, hop, st) matches Some(w)
        ==> t.seen.dom().contains(w) && (t.seen[w] == d ==> has_route(
        t.next,
        routes[p].edges.push(x),
    ))) by {
        if follow(routes[p].end, x, hop, st) is Some {
            let w = follow(routes[p].end, x, hop, st)->0;
            assert(s.seen.dom().contains(w));
            if t.seen[w] == d {
                assert(has_route(s.next, routes[p].edges.push(x)));
            }
        }
    }
    assert forall|k: int| 0 <= k < j + 1 && k < ids.len() implies (follow(
        routes[q].end,
        #[trigger] ids[k],
        hop,
        st,
    ) matches Some(w) ==> t.seen.dom().contains(w) && (t.seen[w] == d ==> has_route(
        t.next,
        routes[q].edges.push(ids[k]),
    ))) by {
        if k < j && follow(routes[q].end, ids[k], hop, st) is Some {
            let w = follow(routes[q].end, ids[k], hop, st)->0;
            assert(s.seen.dom().contains(w));
            if t.seen[w] == d {
                assert(has_route(s.next, routes[q].edges.push(ids[k])));
            }
        }
    }
}

proof fn lemma_gather_steps(
    s: SearchV,
    seen: Map<u64, u64>,
    routes: Seq<RouteV>,
    q: int,
    ids: Seq<u64>,
    j: int,
    start: u64,
    depth: u64,
    g: GoalV,
    hop: HopV,
    st: StoreV,
)
    requires
        store::well_formed(st),
        0 <= q < routes.len(),
        0 <= j <= ids.len(),
        ids == paths::ids_at(st, routes[q].end, hop.direction),
        g.all,
        ready(routes, seen, start, depth as int, g, hop, st),
        grown(s, seen, start, depth as int, g, hop, st),
        told_apart(routes),
        depth >= g.min,
        gathered(s, routes, q, ids, j, depth as int, g, hop, st),
        !s.failed,
        !steps(routes[q], ids, j, s, depth, g, hop, st).failed,
    ensures
        gathered(
            steps(routes[q], ids, j, s, depth, g, hop, st),
            routes,
            q,
            ids,
            ids.len() as int,
            depth as int,
            g,
            hop,
            st,
        ),
    decreases ids.len() - j,
{
    if j < ids.len() {
        let n = step(routes[q], ids[j], s, depth, g, hop, st);
        lemma_steps_flags(routes[q], ids, j + 1, n, depth, g, hop, st);
        paths::lemma_ids_at(st, routes[q].end, hop.direction);
        assert(store::edge_at(st, ids[j]) is Some);
        lemma_step(routes[q], ids[j], s, seen, start, depth, g, hop, st);
        lemma_gather_step(s, seen, routes, q, ids, j, start, depth, g, hop, st);
        lemma_gather_steps(n, seen, routes, q, ids, j + 1, start, depth, g, hop, st);
    }
}

/// A route of which all continuations were tried is one of those before.
proof fn lemma_gathered_one_more(
    s: SearchV,
    routes: Seq<RouteV>,
    q: int,
    ids: Seq<u64>,
    next_ids: Seq<u64>,
    d: int,
    g: GoalV,
    hop: HopV,
    st: StoreV,
)
    requires
        store::well_formed(st),
        0 <= q < routes.len(),
        ids == paths::ids_at(st, routes[q].end, hop.direction),
        gathered(s, routes, q, ids, ids.len() as int, d, g, hop, st),
    ensures
        gathered(s, routes, q + 1, next_ids, 0, d, g, hop, st),
{
    paths::lemma_ids_at(st, routes[q].end, hop.direction);
    assert forall|i: int| 0 <= i < s.next.len() implies goes_on(
        (#[trigger] s.next[i]).edges,
        routes,
        q + 1,
    ) by {
        let n = s.next[i];
        if goes_on(n.edges, routes, q) {
            let p = choose|p: int|
                0 <= p < q && p < routes.len() && n.edges.drop_last() == (#[trigger] routes[p]).edges;
            assert(n.edges.drop_last() == routes[p].edges);
        } else {
            assert(n.edges.drop_last() == routes[q].edges);
        }
    }
    assert forall|p: int, id: u64|
        #![trigger follow(routes[p].end, id, hop, st)]
        0 <= p < q + 1 && p < routes.len() implies (follow(routes[p].end, id, hop, st) matches Some(
        to,
    ) ==> s.seen.dom().contains(to) && (s.seen[to] == d ==> has_route(
        s.next,
        routes[p].edges.push(id),
    ))) by {
        if p == q && follow(routes[p].end, id, hop, st) is Some {
            assert(store::edge_at(st, id) is Some);
            assert(ids.contains(id));
            let k = choose|k: int| 0 <= k < ids.len() && ids[k] == id;
            assert(follow(routes[q].end, ids[k], hop, st) is Some);
        }
    }
}

proof fn lemma_gather_sweep(
    s: SearchV,
    seen: Map<u64, u64>,
    routes: Seq<RouteV>,
    q: int,
    start: u64,
    depth: u64,
    g: GoalV,
    hop: HopV,
    st: StoreV,
)
    requires
        store::well_formed(st),
        0 <= q <= routes.len(),
        g.all,
        ready(routes, seen, start, depth as int, g, hop, st),
        grown(s, seen, start, depth as int, g, hop, st),
        told_apart(routes),
        depth >= g.min,
        gathered(
            s,
            routes,
            q,
            paths::ids_at(st, routes[q].end, hop.direction),
            0,
            depth as int,
            g,
            hop,
            st,
        ),
        !s.failed,
        !sweep(routes, q, s, depth, g, hop, st).failed,
    ensures
        gathered(
            sweep(routes, q, s, depth, g, hop, st),
            routes,
            routes.len() as int,
            seq![],
            0,
            depth as int,
            g,
            hop,
            st,
        ),
    decreases routes.len() - q,
{
    if q < routes.len() {
        let r = routes[q];
        let ids = paths::ids_at(st, r.end, hop.direction);
        paths::lemma_ids_at(st, r.end, hop.direction);
        let n = steps(r, ids, 0, s, depth, g, hop, st);
        lemma_sweep_flags(routes, q + 1, n, depth, g, hop, st);
        lemma_steps(r, ids, 0, s, seen, start, depth, g, hop, st);
        lemma_gather_steps(s, seen, routes, q, ids, 0, start, depth, g, hop, st);
        let after = paths::ids_at(st, routes[q + 1].end, hop.direction);
        lemma_gathered_one_more(n, routes, q, ids, after, depth as int, g, hop, st);
        lemma_gather_sweep(n, seen, routes, q + 1, start, depth, g, hop, st);
    } else {
        let ids = paths::ids_at(st, routes[q].end, hop.direction);
        assert(ids.take(0) =~= seq![]);
        assert(gathered(s, routes, q, seq![], 0, depth as int, g, hop, st));
    }
}

/// The routes that the next round goes on from are complete again.
proof fn lemma_full_again(
    s: SearchV,
    seen: Map<u64, u64>,
    routes: Seq<RouteV>,
    start: u64,
    depth: u64,
    g: GoalV,
    hop: HopV,
    st: StoreV,
)
    requires
        store::well_formed(st),
        ready(routes, seen, start, depth as int, g, hop, st),
        full(routes, seen, start, depth - 1, hop, st),
        grown(s, seen, start, depth as int, g, hop, st),
        gathered(s, routes, routes.len() as int, seq![], 0, depth as int, g, hop, st),
    ensures
        full(s.next, s.seen, start, depth as int, hop, st),
{
    assert forall|edges: Seq<u64>|
        #![trigger paths::walk_end(start, edges, hop.types, hop.direction, st)]
        edges.len() == depth && (paths::walk_end(
            start,
            edges,
            hop.types,
            hop.direction,
            st,
        ) matches Some(m) && s.seen.dom().contains(m) && s.seen[m] == depth) implies has_route(
        s.next,
        edges,
    ) by {
        let to = paths::walk_end(start, edges, hop.types, hop.direction, st)->0;
        let before = edges.drop_last();
        let m = paths::walk_end(start, before, hop.types, hop.direction, st)->0;
        assert(follow(m, edges.last(), hop, st) == Some(to));
        lemma_walk_seen(start, before, seen, depth - 1, hop, st);
        assert(!seen.dom().contains(to)) by {
            if seen.dom().contains(to) {
                assert(s.seen[to] == seen[to]);
            }
        }
        assert(seen[m] == depth - 1);
        assert(has_route(routes, before));
        let p = choose|p: int| 0 <= p < routes.len() && (#[trigger] routes[p]).edges == before;
        assert(is_route(routes[p], start, depth - 1, hop, st));
        assert(routes[p].end == m);
        assert(follow(routes[p].end, edges.last(), hop, st) == Some(to));
        assert(before.push(edges.last()) =~= edges);
    }
}

/// A chain of relationships to the target that is not longer than any other.
pub open spec fn is_least(
    edges: Seq<u64>,
    start: u64,
    max: Option<u64>,
    target: u64,
    hop: HopV,
    st: StoreV,
) -> bool {
    &&& edges.len() <= paths::hop_limit(max)
    &&& paths::walk_end(start, edges, hop.types, hop.direction, st) == Some(target)
    &&& out_of_reach(start, target, edges.len() - 1, hop, st)
}

proof fn lemma_search_all(
    routes: Seq<RouteV>,
    seen: Map<u64, u64>,
    tried: nat,
    start: u64,
    depth: u64,
    max: Option<u64>,
    g: GoalV,
    hop: HopV,
    st: StoreV,
)
    requires
        store::well_formed(st),
        ready(routes, seen, start, depth as int, g, hop, st),
        full(routes, seen, start, depth - 1, hop, st),
        g.all,
        depth >= g.min,
        depth <= paths::hop_limit(max) + 1,
    ensures
        search(routes, seen, tried, depth, max, g, hop, st) matches Ok(found) ==> {
            &&& told_apart(found)
            &&& forall|edges: Seq<u64>| #[trigger]
                is_least(edges, start, max, g.target, hop, st) ==> has_route(found, edges)
        },
    decreases paths::hop_limit(max) - depth + 1,
{
    lemma_search(routes, seen, tried, start, depth, max, g, hop, st);
    if depth <= paths::hop_limit(max) {
        let s0 = SearchV {
            next: seq![],
            seen,
            found: seq![],
            tried,
            stopped: false,
            failed: false,
        };
        let s = sweep(routes, 0, s0, depth, g, hop, st);
        if !s.failed {
            lemma_sweep(routes, 0, s0, seen, start, depth, g, hop, st);
            lemma_gather_sweep(s0, seen, routes, 0, start, depth, g, hop, st);
            lemma_full_again(s, seen, routes, start, depth, g, hop, st);
            if s.found.len() > 0 {
                assert(has_route(s.next, s.found[0].edges));
                let k = choose|k: int|
                    0 <= k < s.next.len() && (#[trigger] s.next[k]).edges == s.found[0].edges;
                assert(is_route(s.next[k], start, depth as int, hop, st));
                assert(is_route(s.found[0], start, depth as int, hop, st));
                assert(s.next[k].end == g.target);
                assert(s.seen.dom().contains(g.target) && s.seen[g.target] == depth);
                assert forall|edges: Seq<u64>| #[trigger]
                    is_least(edges, start, max, g.target, hop, st) implies has_route(
                    s.found,
                    edges,
                ) by {
                    assert(out_of_reach(start, g.target, s.found[0].edges.len() - 1, hop, st));
                    assert(paths::walk_end(
                        start,
                        s.found[0].edges,
                        hop.types,
                        hop.direction,
                        st,
                    ) == Some(g.target));
                    assert(edges.len() == depth);
                    assert(has_route(s.next, edges));
                    let i = choose|i: int|
                        0 <= i < s.next.len() && (#[trigger] s.next[i]).edges == edges;
                    assert(is_route(s.next[i], start, depth as int, hop, st));
                }
            } else if s.next.len() > 0 && depth < paths::hop_limit(max) {
                lemma_ready_again(s, seen, routes, start, depth, g, hop, st);
                lemma_search_all(
                    s.next,
                    s.seen,
                    s.tried,
                    start,
                    (depth + 1) as u64,
                    max,
                    g,
                    hop,
                    st,
                );
            }
        }
    }
}

/// `allShortestPaths` finds every chain of fitting relationships between the
/// two nodes than which no other is shorter, and each of them once.
pub proof fn lemma_all_shortest(start: u64, max: Option<u64>, g: GoalV, hop: HopV, st: StoreV)
    requires
        store::well_formed(st),
        start != g.target,
        g.min <= 1,
        g.all,
    ensures
        shortest_routes(start, max, g, hop, st) matches Ok(found) ==> {
            &&& told_apart(found)
            &&& forall|edges: Seq<u64>| #[trigger]
                is_least(edges, start, max, g.target, hop, st) ==> has_route(found, edges)
        },
{
    let routes = seq![RouteV { edges: seq![], nodes: seq![], end: start }];
    let seen = Map::<u64, u64>::empty().insert(start, 0u64);
    assert(routes[0].end == start);
    assert(ready(routes, seen, start, 1, g, hop, st));
    assert forall|edges: Seq<u64>|
        #![trigger paths::walk_end(start, edges, hop.types, hop.direction, st)]
        edges.len() == 0 implies has_route(routes, edges) by {
        assert(edges =~= routes[0].edges);
    }
    lemma_search_all(routes, seen, 0, start, 1, max, g, hop, st);
}

// ---------------------------------------------------------------------------
// The search, executed
// ---------------------------------------------------------------------------

/// Routes that share their beginnings: each entry refers to the one before it.
type Arena = Vec<(Option<u32>, EdgeId, NodeId)>;

struct Goal {
    target: NodeId,
    min: u64,
    all: bool,
}

impl Goal {
    spec fn view(&self) -> GoalV {
        GoalV { target: self.target, min: self.min, all: self.all }
    }
}

struct Search {
    next: Vec<(NodeId, Option<u32>)>,
    seen: HashMap<u64, u64>,
    found: Vec<u32>,
    stopped: bool,
}

spec fn route_at(arena: Seq<(Option<u32>, u64, u64)>, path: Option<u32>, end: u64) -> RouteV {
    RouteV {
        edges: paths::chain_of(paths::edges_arena(arena), path),
        nodes: paths::chain_of(paths::nodes_arena(arena), path),
        end,
    }
}

spec fn routes_view(
    s: Seq<(u64, Option<u32>)>,
    arena: Seq<(Option<u32>, u64, u64)>,
) -> Seq<RouteV> {
    Seq::new(s.len(), |i: int| route_at(arena, s[i].1, s[i].0))
}

spec fn found_view(s: Seq<u32>, arena: Seq<(Option<u32>, u64, u64)>) -> Seq<RouteV> {
    Seq::new(s.len(), |i: int| route_at(arena, Some(s[i]), arena[s[i] as int].2))
}

spec fn routes_ok(s: Seq<(u64, Option<u32>)>, arena: Seq<(Option<u32>, u64, u64)>) -> bool {
    forall|i: int| 0 <= i < s.len() ==> in_sp(arena, (#[trigger] s[i]).1)
}

spec fn in_sp(arena: Seq<(Option<u32>, u64, u64)>, path: Option<u32>) -> bool {
    path matches Some(i) ==> i < arena.len()
}

spec fn sp_ok(arena: Seq<(Option<u32>, u64, u64)>) -> bool {
    forall|i: int| 0 <= i < arena.len() ==> ((#[trigger] arena[i]).0 matches Some(p) ==> p < i)
}

impl Search {
    spec fn view_in(&self, arena: Seq<(Option<u32>, u64, u64)>) -> SearchV {
        SearchV {
            next: routes_view(self.next@, arena),
            seen: self.seen@,
            found: found_view(self.found@, arena),
            tried: arena.len(),
            stopped: self.stopped,
            failed: false,
        }
    }

    spec fn ok_in(&self, arena: Seq<(Option<u32>, u64, u64)>) -> bool {
        &&& sp_ok(arena)
        &&& arena.len() <= ARENA_CAPACITY
        &&& routes_ok(self.next@, arena)
        &&& forall|i: int| 0 <= i < self.found@.len() ==> (#[trigger] self.found@[i]) < arena.len()
    }
}

spec fn longer(
    a: Seq<(Option<u32>, u64, u64)>,
    b: Seq<(Option<u32>, u64, u64)>,
) -> bool {
    a.len() <= b.len() && b.take(a.len() as int) == a
}

proof fn lemma_route_longer(
    a: Seq<(Option<u32>, u64, u64)>,
    b: Seq<(Option<u32>, u64, u64)>,
    path: Option<u32>,
    end: u64,
)
    requires
        longer(a, b),
        in_sp(a, path),
    ensures
        route_at(a, path, end) == route_at(b, path, end),
{
    assert forall|i: int| 0 <= i < a.len() implies a[i] == b[i] by {
        assert(b.take(a.len() as int)[i] == b[i]);
    }
    assert(paths::edges_arena(b).take(a.len() as int) =~= paths::edges_arena(a));
    assert(paths::nodes_arena(b).take(a.len() as int) =~= paths::nodes_arena(a));
    paths::lemma_chain_prefix(paths::edges_arena(a), paths::edges_arena(b), path);
    paths::lemma_chain_prefix(paths::nodes_arena(a), paths::nodes_arena(b), path);
}

proof fn lemma_routes_longer(
    s: Seq<(u64, Option<u32>)>,
    a: Seq<(Option<u32>, u64, u64)>,
    b: Seq<(Option<u32>, u64, u64)>,
)
    requires
        longer(a, b),
        routes_ok(s, a),
    ensures
        routes_ok(s, b),
        routes_view(s, a) == routes_view(s, b),
{
    assert forall|i: int| 0 <= i < s.len() implies route_at(a, (#[trigger] s[i]).1, s[i].0)
        == route_at(b, s[i].1, s[i].0) by {
        lemma_route_longer(a, b, s[i].1, s[i].0);
    }
    assert(routes_view(s, a) =~= routes_view(s, b));
}

proof fn lemma_found_longer(
    s: Seq<u32>,
    a: Seq<(Option<u32>, u64, u64)>,
    b: Seq<(Option<u32>, u64, u64)>,
)
    requires
        longer(a, b),
        forall|i: int| 0 <= i < s.len() ==> (#[trigger] s[i]) < a.len(),
    ensures
        found_view(s, a) == found_view(s, b),
{
    assert forall|i: int| 0 <= i < s.len() implies #[trigger] found_view(s, a)[i] == found_view(
        s,
        b,
    )[i] by {
        assert(s[i] < a.len());
        assert(b.take(a.len() as int)[s[i] as int] == b[s[i] as int]);
        lemma_route_longer(a, b, Some(s[i]), a[s[i] as int].2);
    }
    assert(found_view(s, a) =~= found_view(s, b));
}

proof fn lemma_longer_push(a: Seq<(Option<u32>, u64, u64)>, x: (Option<u32>, u64, u64))
    ensures
        longer(a, a.push(x)),
{
    assert(a.push(x).take(a.len() as int) =~= a);
}

proof fn lemma_longer_trans(
    a: Seq<(Option<u32>, u64, u64)>,
    b: Seq<(Option<u32>, u64, u64)>,
    c: Seq<(Option<u32>, u64, u64)>,
)
    requires
        longer(a, b),
        longer(b, c),
    ensures
        longer(a, c),
{
    assert(c.take(a.len() as int) =~= b.take(a.len() as int)) by {
        assert forall|i: int| 0 <= i < a.len() implies c.take(a.len() as int)[i] == b.take(
            a.len() as int,
        )[i] by {
            assert(c.take(b.len() as int)[i] == b[i]);
        }
    }
}

/// A node may be reached by a route of a length.
fn may_reach(seen: &HashMap<u64, u64>, to: NodeId, depth: u64, all: bool) -> (r: bool)
    ensures
        r == !(seen@.dom().contains(to) && (!all || seen@[to] != depth)),
{
    match seen.get(&to) {
        None => true,
        Some(d) => all && *d == depth,
    }
}

fn try_step<S: StorageBackend>(
    at: NodeId,
    path: Option<u32>,
    id: EdgeId,
    depth: u64,
    goal: &Goal,
    s: &mut Search,
    arena: &mut Arena,
    hop: &Hop,
    storage: &S,
) -> (r: Result<(), CypherError>)
    requires
        storage.valid(),
        old(s).ok_in(old(arena)@),
        in_sp(old(arena)@, path),
    ensures
        ({
            let want = step(
                route_at(old(arena)@, path, at),
                id,
                old(s).view_in(old(arena)@),
                depth,
                goal@,
                hop@,
                storage.store(),
            );
            match r {
                Ok(_) => {
                    &&& final(s).view_in(final(arena)@) == want
                    &&& final(s).ok_in(final(arena)@)
                    &&& longer(old(arena)@, final(arena)@)
                },
                Err(e) => e@ == ErrV::Runtime(arena_message()) && want.failed,
            }
        }),
{
    let ghost a0 = arena@;
    let ghost s0 = s.view_in(a0);
    proof {
        assert(a0.take(a0.len() as int) =~= a0);
        assert(paths::arena_ok(paths::edges_arena(a0)));
    }
    let edge = match storage.get_edge(id) {
        Some(e) => e,
        None => return Ok(()),
    };
    if path_chain_contains_sp(arena, path, id) || !type_fits(hop.types, edge.label.as_str()) {
        return Ok(());
    }
    let to = far_end(&edge, at, hop.direction);
    if !may_reach(&s.seen, to, depth, goal.all) {
        return Ok(());
    }
    if arena.len() as u64 > 0xffff_ffff {
        return Err(
            CypherError::RuntimeError(
                "shortestPath traversal exceeded internal arena capacity".to_owned(),
            ),
        );
    }
    let entry = arena.len() as u32;
    arena.push((path, id, to));
    let ghost n = RouteV {
        edges: route_at(a0, path, at).edges.push(id),
        nodes: route_at(a0, path, at).nodes.push(to),
        end: to,
    };
    proof {
        lemma_longer_push(a0, (path, id, to));
        lemma_route_longer(a0, arena@, path, at);
        lemma_routes_longer(s.next@, a0, arena@);
        lemma_found_longer(s.found@, a0, arena@);
        let ea = paths::edges_arena(arena@);
        let na = paths::nodes_arena(arena@);
        assert(ea[entry as int] == (path, id));
        assert(na[entry as int] == (path, to));
        assert(route_at(arena@, Some(entry), to) == n);
        assert(arena@[entry as int].2 == to);
    }
    let hit = to == goal.target && depth >= goal.min;
    if hit {
        let ghost f0 = s.found@;
        s.found.push(entry);
        proof {
            assert(found_view(s.found@, arena@) =~= found_view(f0, arena@).push(n));
        }
        if !goal.all {
            s.stopped = true;
            return Ok(());
        }
    }
    if !s.seen.contains_key(&to) {
        s.seen.insert(to, depth);
    }
    let ghost n0 = s.next@;
    s.next.push((to, Some(entry)));
    proof {
        assert(routes_view(s.next@, arena@) =~= routes_view(n0, arena@).push(n));
    }
    Ok(())
}

fn try_steps<S: StorageBackend>(
    at: NodeId,
    path: Option<u32>,
    depth: u64,
    goal: &Goal,
    s: &mut Search,
    arena: &mut Arena,
    hop: &Hop,
    storage: &S,
) -> (r: Result<(), CypherError>)
    requires
        storage.valid(),
        old(s).ok_in(old(arena)@),
        in_sp(old(arena)@, path),
    ensures
        ({
            let want = steps(
                route_at(old(arena)@, path, at),
                paths::ids_at(storage.store(), at, hop@.direction),
                0,
                old(s).view_in(old(arena)@),
                depth,
                goal@,
                hop@,
                storage.store(),
            );
            match r {
                Ok(_) => {
                    &&& final(s).view_in(final(arena)@) == want
                    &&& final(s).ok_in(final(arena)@)
                    &&& longer(old(arena)@, final(arena)@)
                },
                Err(e) => e@ == ErrV::Runtime(arena_message()) && want.failed,
            }
        }),
{
    let ghost a0 = arena@;
    let ghost r0 = route_at(a0, path, at);
    let ghost s0 = s.view_in(a0);
    let ghost st = storage.store();
    let ids = edge_ids_in_direction(storage, at, hop.direction);
    let ghost want = steps(r0, ids@, 0, s0, depth, goal@, hop@, st);
    proof {
        assert(a0.take(a0.len() as int) =~= a0);
    }
    let mut j: usize = 0;
    while j < ids.len() && !s.stopped
        invariant
            storage.valid(),
            st == storage.store(),
            a0 == old(arena)@,
            s0 == old(s).view_in(a0),
            r0 == route_at(a0, path, at),
            ids@ == paths::ids_at(st, at, hop@.direction),
            want == steps(r0, ids@, 0, s0, depth, goal@, hop@, st),
            s.ok_in(arena@),
            in_sp(a0, path),
            longer(a0, arena@),
            j <= ids.len(),
            want == steps(r0, ids@, j as int, s.view_in(arena@), depth, goal@, hop@, st),
        decreases ids.len() - j,
    {
        let ghost before = arena@;
        proof {
            lemma_route_longer(a0, arena@, path, at);
            lemma_steps_flags(
                r0,
                ids@,
                j as int + 1,
                step(r0, ids@[j as int], s.view_in(arena@), depth, goal@, hop@, st),
                depth,
                goal@,
                hop@,
                st,
            );
        }
        try_step(at, path, ids[j], depth, goal, s, arena, hop, storage)?;
        proof {
            lemma_longer_trans(a0, before, arena@);
        }
        j += 1;
    }
    Ok(())
}

fn try_routes<S: StorageBackend>(
    routes: &Vec<(NodeId, Option<u32>)>,
    depth: u64,
    goal: &Goal,
    s: &mut Search,
    arena: &mut Arena,
    hop: &Hop,
    storage: &S,
) -> (r: Result<(), CypherError>)
    requires
        storage.valid(),
        old(s).ok_in(old(arena)@),
        routes_ok(routes@, old(arena)@),
    ensures
        ({
            let want = sweep(
                routes_view(routes@, old(arena)@),
                0,
                old(s).view_in(old(arena)@),
                depth,
                goal@,
                hop@,
                storage.store(),
            );
            match r {
                Ok(_) => {
                    &&& final(s).view_in(final(arena)@) == want
                    &&& final(s).ok_in(final(arena)@)
                },
                Err(e) => e@ == ErrV::Runtime(arena_message()) && want.failed,
            }
        }),
{
    let ghost a0 = arena@;
    let ghost rs = routes_view(routes@, a0);
    let ghost s0 = s.view_in(a0);
    let ghost st = storage.store();
    let ghost want = sweep(rs, 0, s0, depth, goal@, hop@, st);
    proof {
        assert(a0.take(a0.len() as int) =~= a0);
    }
    let mut i: usize = 0;
    while i < routes.len() && !s.stopped
        invariant
            storage.valid(),
            st == storage.store(),
            a0 == old(arena)@,
            s0 == old(s).view_in(a0),
            rs == routes_view(routes@, a0),
            want == sweep(rs, 0, s0, depth, goal@, hop@, st),
            s.ok_in(arena@),
            routes_ok(routes@, a0),
            longer(a0, arena@),
            i <= routes.len(),
            want == sweep(rs, i as int, s.view_in(arena@), depth, goal@, hop@, st),
        decreases routes.len() - i,
    {
        let (at, path) = routes[i];
        let ghost before = arena@;
        proof {
            assert(routes@[i as int].1 == path);
            lemma_route_longer(a0, arena@, path, at);
            assert(rs[i as int] == route_at(arena@, path, at));
            lemma_sweep_flags(
                rs,
                i as int + 1,
                steps(
                    rs[i as int],
                    paths::ids_at(st, at, hop@.direction),
                    0,
                    s.view_in(arena@),
                    depth,
                    goal@,
                    hop@,
                    st,
                ),
                depth,
                goal@,
                hop@,
                st,
            );
        }
        try_steps(at, path, depth, goal, s, arena, hop, storage)?;
        proof {
            lemma_longer_trans(a0, before, arena@);
        }
        i += 1;
    }
    Ok(())
}

/// The found routes and the arena that they are in.
fn run_search<S: StorageBackend>(
    start: NodeId,
    max: Option<u64>,
    goal: &Goal,
    arena: &mut Arena,
    hop: &Hop,
    storage: &S,
) -> (r: Result<Vec<u32>, CypherError>)
    requires
        storage.valid(),
        old(arena)@.len() == 0,
    ensures
        sp_ok(final(arena)@),
        match r {
            Ok(found) => {
                &&& shortest_routes(start, max, goal@, hop@, storage.store()) == Ok::<
                    Seq<RouteV>,
                    ErrV,
                >(found_view(found@, final(arena)@))
                &&& forall|i: int| 0 <= i < found@.len() ==> (#[trigger] found@[i])
                    < final(arena)@.len()
            },
            Err(e) => shortest_routes(start, max, goal@, hop@, storage.store()) == Err::<
                Seq<RouteV>,
                ErrV,
            >(e@),
        },
{
    let ghost st = storage.store();
    let ghost want = shortest_routes(start, max, goal@, hop@, st);
    let mut seen: HashMap<u64, u64> = HashMap::new();
    seen.insert(start, 0);
    let mut routes: Vec<(NodeId, Option<u32>)> = Vec::new();
    routes.push((start, None));
    proof {
        assert(routes_view(routes@, arena@) =~= seq![
            RouteV { edges: seq![], nodes: seq![], end: start },
        ]);
        assert(seen@ =~= Map::empty().insert(start, 0u64));
    }
    let none: Vec<u32> = Vec::new();
    proof {
        assert(found_view(none@, arena@) =~= seq![]);
    }
    let limit = match max {
        Some(m) => m,
        None => DEFAULT_MAX_HOPS,
    };
    let mut depth: u64 = 1;
    while depth <= limit
        invariant
            storage.valid(),
            st == storage.store(),
            none@.len() == 0,
            1 <= depth,
            limit == paths::hop_limit(max),
            sp_ok(arena@),
            arena@.len() <= ARENA_CAPACITY,
            routes_ok(routes@, arena@),
            want == shortest_routes(start, max, goal@, hop@, st),
            want == search(
                routes_view(routes@, arena@),
                seen@,
                arena@.len(),
                depth,
                max,
                goal@,
                hop@,
                st,
            ),
        decreases limit - depth + 1,
    {
        let mut s = Search { next: Vec::new(), seen, found: Vec::new(), stopped: false };
        proof {
            assert(routes_view(s.next@, arena@) =~= seq![]);
            assert(found_view(s.found@, arena@) =~= seq![]);
            assert(s.ok_in(arena@));
        }
        let ghost sw = sweep(
            routes_view(routes@, arena@),
            0,
            s.view_in(arena@),
            depth,
            goal@,
            hop@,
            st,
        );
        match try_routes(&routes, depth, goal, &mut s, arena, hop, storage) {
            Ok(_) => {},
            Err(e) => {
                let failed: Arena = Vec::new();
                *arena = failed;
                return Err(e);
            },
        }
        proof {
            assert(s.view_in(arena@) == sw);
            assert(sw.found.len() == s.found@.len());
            assert(sw.next.len() == s.next@.len());
        }
        if s.found.len() > 0 {
            return Ok(s.found);
        }
        if s.next.len() == 0 || depth == limit {
            proof {
                assert(found_view(none@, arena@) =~= seq![]);
            }
            return Ok(none);
        }
        routes = s.next;
        seen = s.seen;
        depth += 1;
    }
    proof {
        assert(found_view(none@, arena@) =~= seq![]);
    }
    Ok(none)
}

/// The numbers along the entries of an arena: relationships and nodes.
fn route_ids(arena: &Arena, entry: u32) -> (r: (Vec<EdgeId>, Vec<NodeId>))
    requires
        sp_ok(arena@),
        entry < arena@.len(),
    ensures
        r.0@ == paths::chain_of(paths::edges_arena(arena@), Some(entry)),
        r.1@ == paths::chain_of(paths::nodes_arena(arena@), Some(entry)),
        r.0@.len() == r.1@.len(),
    decreases entry,
{
    let (parent, id, to) = arena[entry as usize];
    proof {
        assert(paths::edges_arena(arena@)[entry as int] == (parent, id));
        assert(paths::nodes_arena(arena@)[entry as int] == (parent, to));
        assert(arena@[entry as int].0 == parent);
        let ea = paths::edges_arena(arena@);
        let na = paths::nodes_arena(arena@);
        assert(paths::chain_of(ea, Some(entry)) == paths::chain_of(ea, parent).push(id));
        assert(paths::chain_of(na, Some(entry)) == paths::chain_of(na, parent).push(to));
        assert(paths::chain_of(ea, None) == Seq::<u64>::empty());
        assert(paths::chain_of(na, None) == Seq::<u64>::empty());
    }
    let (mut edges, mut nodes) = match parent {
        None => {
            let no_edges: Vec<EdgeId> = Vec::new();
            let no_nodes: Vec<NodeId> = Vec::new();
            (no_edges, no_nodes)
        },
        Some(p) => route_ids(arena, p),
    };
    edges.push(id);
    nodes.push(to);
    (edges, nodes)
}

fn make_path<S: StorageBackend>(start: NodeId, arena: &Arena, entry: u32, storage: &S) -> (r: Path)
    requires
        storage.valid(),
        sp_ok(arena@),
        entry < arena@.len(),
    ensures
        r@ == route_path(
            start,
            route_at(arena@, Some(entry), arena@[entry as int].2),
            storage.store(),
        ),
{
    let ghost route = route_at(arena@, Some(entry), arena@[entry as int].2);
    let ghost st = storage.store();
    let (ids, ends) = route_ids(arena, entry);
    let mut nodes: Vec<Node> = Vec::new();
    if let Some(n) = storage.get_node(start) {
        nodes.push(n);
        proof {
            assert(value::nodes_view(nodes@) =~= seq![n@]);
        }
    } else {
        proof {
            assert(value::nodes_view(nodes@) =~= seq![]);
        }
    }
    let ghost first = value::nodes_view(nodes@);
    let mut relationships: Vec<Edge> = Vec::new();
    let mut i: usize = 0;
    proof {
        assert(value::edges_view(relationships@) =~= seq![]);
    }
    while i < ids.len()
        invariant
            storage.valid(),
            st == storage.store(),
            ids@ == route.edges,
            ends@ == route.nodes,
            ids@.len() == ends@.len(),
            i <= ids.len(),
            route_nodes(route, 0, first, st) == route_nodes(
                route,
                i as int,
                value::nodes_view(nodes@),
                st,
            ),
            route_edges(route, 0, seq![], st) == route_edges(
                route,
                i as int,
                value::edges_view(relationships@),
                st,
            ),
        decreases ids.len() - i,
    {
        if let Some(e) = storage.get_edge(ids[i]) {
            if let Some(n) = storage.get_node(ends[i]) {
                proof {
                    assert(value::edges_view(relationships@.push(e)) =~= value::edges_view(
                        relationships@,
                    ).push(e@));
                    assert(value::nodes_view(nodes@.push(n)) =~= value::nodes_view(nodes@).push(
                        n@,
                    ));
                }
                relationships.push(e);
                nodes.push(n);
            }
        }
        i += 1;
    }
    Path { nodes, relationships }
}

fn make_path_row(rec: &Record, path_variable: &str, hop: &Hop, p: Path) -> (r: Record)
    ensures
        r@ == path_row(rec@, path_variable@, hop@, p@),
{
    let mut list: Vec<CypherValue> = Vec::new();
    let mut i: usize = 0;
    while i < p.relationships.len()
        invariant
            i <= p.relationships.len(),
            list.len() == i,
            forall|j: int|
                0 <= j < i ==> (#[trigger] list@[j])@ == ValV::Relationship(p.relationships@[j]@),
        decreases p.relationships.len() - i,
    {
        list.push(CypherValue::Relationship(p.relationships[i].clone()));
        i += 1;
    }
    proof {
        assert(value::vals_view(list@) =~= rel_values(p@.relationships));
    }
    let mut r = rec.with(path_variable, CypherValue::Path(p));
    if let Some(x) = hop.rel {
        r.insert(x.clone(), CypherValue::List(list));
    }
    r
}

fn find_from<S: StorageBackend>(
    rec: &Record,
    path_variable: &str,
    start: NodeId,
    max: Option<u64>,
    goal: &Goal,
    hop: &Hop,
    storage: &S,
) -> (r: Result<Vec<Record>, CypherError>)
    requires
        storage.valid(),
    ensures
        recs_outcome(r) == shortest_row(
            rec@,
            path_variable@,
            start,
            max,
            goal@,
            hop@,
            storage.store(),
        ),
{
    let mut out: Vec<Record> = Vec::new();
    proof {
        assert(value::recs_view(out@) =~= seq![]);
    }
    if start == goal.target {
        if goal.min == 0 {
            if let Some(n) = storage.get_node(start) {
                let mut nodes: Vec<Node> = Vec::new();
                nodes.push(n);
                let relationships: Vec<Edge> = Vec::new();
                proof {
                    assert(value::nodes_view(nodes@) =~= seq![n@]);
                    assert(value::edges_view(relationships@) =~= seq![]);
                }
                let row = make_path_row(rec, path_variable, hop, Path { nodes, relationships });
                out.push(row);
                proof {
                    assert(value::recs_view(out@) =~= seq![row@]);
                }
            }
        }
        return Ok(out);
    }
    let mut arena: Arena = Vec::new();
    let found = run_search(start, max, goal, &mut arena, hop, storage)?;
    let mut i: usize = 0;
    while i < found.len()
        invariant
            storage.valid(),
            sp_ok(arena@),
            forall|k: int| 0 <= k < found@.len() ==> (#[trigger] found@[k]) < arena@.len(),
            i <= found.len(),
            out.len() == i,
            forall|j: int|
                0 <= j < i ==> (#[trigger] out@[j])@ == path_row(
                    rec@,
                    path_variable@,
                    hop@,
                    route_path(start, found_view(found@, arena@)[j], storage.store()),
                ),
        decreases found.len() - i,
    {
        proof {
            assert(found@[i as int] < arena@.len());
        }
        let p = make_path(start, &arena, found[i], storage);
        out.push(make_path_row(rec, path_variable, hop, p));
        i += 1;
    }
    proof {
        assert(value::recs_view(out@) =~= path_rows(
            rec@,
            path_variable@,
            start,
            found_view(found@, arena@),
            hop@,
            storage.store(),
        ));
    }
    Ok(out)
}

/// Finds one shortest path between the two nodes of every row, or all.
pub fn execute_shortest_path<S: StorageBackend>(
    t: Table,
    path_variable: &str,
    min_hops: u64,
    max_hops: Option<u64>,
    all_shortest: bool,
    hop: &Hop,
    storage: &S,
) -> (r: Result<Table, CypherError>)
    requires
        storage.valid(),
    ensures
        rows::table_outcome(r) == (match shortest_rows(
            t@.rows,
            0,
            seq![],
            path_variable@,
            min_hops,
            max_hops,
            all_shortest,
            hop@,
            storage.store(),
        ) {
            Err(x) => Err(x),
            Ok(out) => Ok(
                TableV {
                    cols: rows::with_opt_col(
                        rows::with_col(t@.cols, path_variable@),
                        hop@.rel,
                    ),
                    rows: out,
                },
            ),
        }),
{
    let mut cols = t.cols;
    add_col(&mut cols, path_variable);
    add_opt_col(&mut cols, hop.rel);
    let mut out: Vec<Record> = Vec::new();
    let mut i: usize = 0;
    proof {
        assert(value::recs_view(out@) =~= seq![]);
    }
    while i < t.rows.len()
        invariant
            storage.valid(),
            i <= t.rows.len(),
            shortest_rows(
                value::recs_view(t.rows@),
                0,
                seq![],
                path_variable@,
                min_hops,
                max_hops,
                all_shortest,
                hop@,
                storage.store(),
            ) == shortest_rows(
                value::recs_view(t.rows@),
                i as int,
                value::recs_view(out@),
                path_variable@,
                min_hops,
                max_hops,
                all_shortest,
                hop@,
                storage.store(),
            ),
        decreases t.rows.len() - i,
    {
        if let Some(CypherValue::Node(a)) = t.rows[i].get(hop.src.as_str()) {
            if let Some(CypherValue::Node(b)) = t.rows[i].get(hop.dst.as_str()) {
                let goal = Goal { target: b.id, min: min_hops, all: all_shortest };
                let more = find_from(
                    &t.rows[i],
                    path_variable,
                    a.id,
                    max_hops,
                    &goal,
                    hop,
                    storage,
                )?;
                append_rows(&mut out, more);
            }
        }
        i += 1;
    }
    Ok(Table { cols, rows: out })
}

} // verus!
