//! What a pattern of one relationship matches.
use crate::assoc;
use crate::ast::Direction;
use crate::executor;
use crate::index;
use crate::paths;
use crate::plan::{HopV, PlanV};
use crate::rows::{self, TableV};
use crate::semantics::{self, EnvV};
use crate::store::{self, StoreV};
use crate::text;
use crate::value::{EdgeV, NodeV, RecV, ValV};
use vstd::prelude::*;

verus! {

/// A relationship leads from one node to another, read in the direction of an
/// arrow.
pub open spec fn leads(e: EdgeV, from: u64, to: u64, arrow: Direction) -> bool {
    match arrow {
        Direction::Outgoing => e.src == from && e.dst == to,
        Direction::Incoming => e.dst == from && e.src == to,
        Direction::Undirected => (e.src == from && e.dst == to) || (e.dst == from && e.src == to),
    }
}

/// The relationship at a position matches a hop from the node that a row binds.
pub open spec fn matches(row: RecV, m: int, hop: HopV, st: StoreV) -> bool {
    &&& 0 <= m < st.edges.len()
    &&& st.edges[m] is Some
    &&& hop.types.len() == 0 || hop.types.contains(st.edges[m]->0.label)
    &&& assoc::lookup(row, hop.src) matches Some(ValV::Node(n)) && match hop.direction {
        Direction::Outgoing => st.edges[m]->0.src == n.id,
        Direction::Incoming => st.edges[m]->0.dst == n.id,
        Direction::Undirected => st.edges[m]->0.src == n.id || st.edges[m]->0.dst == n.id,
    }
}

/// A row is another one with a relationship and the node at its far end.
pub open spec fn reaches(out: RecV, row: RecV, m: int, hop: HopV, st: StoreV) -> bool {
    let e = st.edges[m]->0;
    &&& assoc::lookup(row, hop.src) matches Some(ValV::Node(n)) && assoc::lookup(
        out,
        hop.dst,
    ) matches Some(ValV::Node(f)) && leads(e, n.id, f.id, hop.direction) && 0 <= f.id
        < st.nodes.len() && st.nodes[f.id as int] == Some(f)
    &&& hop.rel is Some && hop.rel != Some(hop.dst) ==> assoc::lookup(out, hop.rel->0) == Some(
        ValV::Relationship(e),
    )
    &&& forall|v: Seq<char>|
        v != hop.dst && hop.rel != Some(v) ==> #[trigger] assoc::lookup(out, v) == assoc::lookup(
            row,
            v,
        )
}

/// A relationship that leads from a node back to it.
pub open spec fn is_loop(e: EdgeV) -> bool {
    e.src == e.dst
}

/// For each row of a table, and each relationship of a wanted type at the node
/// that the row binds, there is a row that binds the relationship and the node
/// at its other end; there are no other rows. Only a relationship that leads
/// back to its node is met twice, where the arrow has no direction.
pub proof fn lemma_hop(input: Box<PlanV>, t: TableV, hop: HopV, env: EnvV, st: StoreV) -> (picks: Seq<
    (int, int),
>)
    requires
        store::well_formed(st),
    ensures
        ({
            let done = executor::step(PlanV::Expand { input, hop }, t, env, st);
            &&& done.1 == st
            &&& done.0 matches Ok(out) && out.rows.len() == picks.len() && out.cols.contains(
                hop.dst,
            ) && (forall|k: int|
                0 <= k < picks.len() ==> {
                    let p = #[trigger] picks[k];
                    &&& 0 <= p.0 < t.rows.len()
                    &&& matches(t.rows[p.0], p.1, hop, st)
                    &&& reaches(out.rows[k], t.rows[p.0], p.1, hop, st)
                })
            &&& forall|i: int, m: int|
                0 <= i < t.rows.len() && #[trigger] matches(t.rows[i], m, hop, st)
                    ==> picks.contains((i, m))
            &&& forall|k: int, l: int|
                0 <= k < l < picks.len() && #[trigger] picks[k] == #[trigger] picks[l]
                    ==> hop.direction == Direction::Undirected && is_loop(
                    st.edges[picks[k].1]->0,
                )
            &&& hop.direction == Direction::Undirected ==> forall|i: int, m: int|
                0 <= i < t.rows.len() && #[trigger] matches(t.rows[i], m, hop, st) && is_loop(
                    st.edges[m]->0,
                ) ==> exists|k: int, l: int|
                    0 <= k < l < picks.len() && #[trigger] picks[k] == (i, m) && #[trigger] picks[l]
                        == (i, m)
        }),
{
    reveal(executor::step);
    let picks = lemma_rows(t.rows, t.rows.len() as int, hop, st);
    let cols = rows::with_opt_col(t.cols, hop.rel);
    lemma_with_col(cols, hop.dst);
    assert(rows::expand_rows(t.rows, 0, seq![], hop, st) == all_rows(
        t.rows,
        t.rows.len() as int,
        hop,
        st,
    )) by {
        lemma_front(t.rows, 0, hop, st);
        assert(all_rows(t.rows, 0, hop, st) =~= seq![]);
    }
    picks
}

proof fn lemma_with_col(cols: Seq<Seq<char>>, c: Seq<char>)
    ensures
        rows::with_col(cols, c).contains(c),
{
    let w = rows::with_col(cols, c);
    if text::has_text(cols, c) {
        let i = choose|i: int| 0 <= i < cols.len() && #[trigger] cols[i] == c;
        assert(w[i] == c);
    } else {
        assert(w[w.len() - 1] == c);
    }
}

// ---------------------------------------------------------------------------
// One row
// ---------------------------------------------------------------------------

/// The rows of one row along the first `n` of its relationships.
spec fn row_part(row: RecV, id: u64, n: int, hop: HopV, st: StoreV) -> Seq<RecV>
    decreases n,
{
    let edges = semantics::edges_at(st, id, hop.direction);
    if n <= 0 || n > edges.len() {
        seq![]
    } else {
        let before = row_part(row, id, n - 1, hop, st);
        let e = edges[n - 1];
        match store::node_at(st, semantics::other_end(e, id, hop.direction)) {
            Some(dst) => if semantics::of_type(hop.types, e.label) {
                before.push(rows::hop_row(row, hop, ValV::Relationship(e), dst))
            } else {
                before
            },
            None => before,
        }
    }
}

/// All rows of the first `n` rows.
spec fn all_rows(rs: Seq<RecV>, n: int, hop: HopV, st: StoreV) -> Seq<RecV>
    decreases n,
{
    if n <= 0 || n > rs.len() {
        seq![]
    } else {
        all_rows(rs, n - 1, hop, st) + own_rows(rs[n - 1], hop, st)
    }
}

spec fn own_rows(row: RecV, hop: HopV, st: StoreV) -> Seq<RecV> {
    match assoc::lookup(row, hop.src) {
        Some(ValV::Node(n)) => row_part(
            row,
            n.id,
            semantics::edges_at(st, n.id, hop.direction).len() as int,
            hop,
            st,
        ),
        _ => seq![],
    }
}

proof fn lemma_along(acc: Seq<RecV>, row: RecV, id: u64, j: int, hop: HopV, st: StoreV)
    requires
        0 <= j <= semantics::edges_at(st, id, hop.direction).len(),
    ensures
        ({
            let edges = semantics::edges_at(st, id, hop.direction);
            rows::expand_along(
                edges,
                j,
                acc + row_part(row, id, j, hop, st),
                id,
                row,
                hop,
                st,
            ) == acc + row_part(row, id, edges.len() as int, hop, st)
        }),
    decreases semantics::edges_at(st, id, hop.direction).len() - j,
{
    let edges = semantics::edges_at(st, id, hop.direction);
    if j < edges.len() {
        lemma_along(acc, row, id, j + 1, hop, st);
        let now = acc + row_part(row, id, j, hop, st);
        let next = acc + row_part(row, id, j + 1, hop, st);
        let e = edges[j];
        match store::node_at(st, semantics::other_end(e, id, hop.direction)) {
            Some(dst) => {
                if semantics::of_type(hop.types, e.label) {
                    assert(next =~= now.push(
                        rows::hop_row(row, hop, ValV::Relationship(e), dst),
                    ));
                }
            },
            None => {},
        }
    }
}

proof fn lemma_front(rs: Seq<RecV>, i: int, hop: HopV, st: StoreV)
    requires
        0 <= i <= rs.len(),
    ensures
        rows::expand_rows(rs, i, all_rows(rs, i, hop, st), hop, st) == all_rows(
            rs,
            rs.len() as int,
            hop,
            st,
        ),
    decreases rs.len() - i,
{
    if i < rs.len() {
        lemma_front(rs, i + 1, hop, st);
        let acc = all_rows(rs, i, hop, st);
        match assoc::lookup(rs[i], hop.src) {
            Some(ValV::Node(n)) => {
                lemma_along(acc, rs[i], n.id, 0, hop, st);
                assert(acc + row_part(rs[i], n.id, 0, hop, st) =~= acc);
            },
            _ => {
                assert(acc + own_rows(rs[i], hop, st) =~= acc);
            },
        }
    }
}

/// The relationships at a node, and their positions.
proof fn lemma_edges(st: StoreV, id: u64, arrow: Direction)
    requires
        store::well_formed(st),
    ensures
        ({
            let edges = semantics::edges_at(st, id, arrow);
            let ids = paths::ids_at(st, id, arrow);
            &&& edges.len() == ids.len()
            &&& forall|j: int|
                0 <= j < edges.len() ==> 0 <= ids[j] < st.edges.len() && st.edges[ids[j] as int]
                    == Some(#[trigger] edges[j]) && edges[j].id == ids[j]
        }),
{
    let len = st.edges.len() as int;
    let out = |e: EdgeV| e.src == id;
    let inc = |e: EdgeV| e.dst == id;
    index::lemma_chosen(st.edges, out, len);
    index::lemma_chosen(st.edges, inc, len);
    index::lemma_chosen_ids(st.edges, out, len);
    index::lemma_chosen_ids(st.edges, inc, len);
    let a = store::outgoing_ids(st, id);
    let b = store::incoming_ids(st, id);
    assert forall|j: int| 0 <= j < a.len() implies a[j] < len by {
        assert(a.contains(a[j]));
    }
    assert forall|j: int| 0 <= j < b.len() implies b[j] < len by {
        assert(b.contains(b[j]));
    }
    let ids = paths::ids_at(st, id, arrow);
    let edges = semantics::edges_at(st, id, arrow);
    assert forall|j: int| 0 <= j < edges.len() implies 0 <= ids[j] < st.edges.len()
        && st.edges[ids[j] as int] == Some(#[trigger] edges[j]) && edges[j].id == ids[j] by {
        match arrow {
            Direction::Outgoing => {
                assert(st.edges[a[j] as int] == Some(store::outgoing(st, id)[j]));
            },
            Direction::Incoming => {
                assert(st.edges[b[j] as int] == Some(store::incoming(st, id)[j]));
            },
            Direction::Undirected => {
                if j < a.len() {
                    assert(st.edges[a[j] as int] == Some(store::outgoing(st, id)[j]));
                } else {
                    let k = j - a.len();
                    assert(st.edges[b[k] as int] == Some(store::incoming(st, id)[k]));
                }
            },
        }
    }
}

/// Whether a relationship among the first `n` at a node is taken.
spec fn part_picks(id: u64, n: int, hop: HopV, st: StoreV) -> Seq<int>
    decreases n,
{
    let edges = semantics::edges_at(st, id, hop.direction);
    if n <= 0 || n > edges.len() {
        seq![]
    } else if semantics::of_type(hop.types, edges[n - 1].label) {
        part_picks(id, n - 1, hop, st).push(edges[n - 1].id as int)
    } else {
        part_picks(id, n - 1, hop, st)
    }
}

proof fn lemma_hop_row(row: RecV, hop: HopV, m: int, n: NodeV, f: NodeV, st: StoreV)
    requires
        0 <= m < st.edges.len(),
        st.edges[m] is Some,
        assoc::lookup(row, hop.src) == Some(ValV::Node(n)),
        leads(st.edges[m]->0, n.id, f.id, hop.direction),
        0 <= f.id < st.nodes.len(),
        st.nodes[f.id as int] == Some(f),
    ensures
        reaches(
            rows::hop_row(row, hop, ValV::Relationship(st.edges[m]->0), f),
            row,
            m,
            hop,
            st,
        ),
{
    let rel = ValV::Relationship(st.edges[m]->0);
    let mid = rows::bind_opt(row, hop.rel, rel);
    let out = rows::hop_row(row, hop, rel, f);
    assoc::lemma_lookup_bind(mid, hop.dst, ValV::Node(f), hop.dst);
    if let Some(x) = hop.rel {
        assoc::lemma_lookup_bind(row, x, rel, x);
        assoc::lemma_lookup_bind(mid, hop.dst, ValV::Node(f), x);
    }
    assert forall|v: Seq<char>| v != hop.dst && hop.rel != Some(v) implies #[trigger] assoc::lookup(
        out,
        v,
    ) == assoc::lookup(row, v) by {
        assoc::lemma_lookup_bind(mid, hop.dst, ValV::Node(f), v);
        if let Some(x) = hop.rel {
            assoc::lemma_lookup_bind(row, x, rel, v);
        }
    }
}

proof fn lemma_part(row: RecV, n: NodeV, k: int, hop: HopV, st: StoreV)
    requires
        store::well_formed(st),
        assoc::lookup(row, hop.src) == Some(ValV::Node(n)),
        0 <= k <= semantics::edges_at(st, n.id, hop.direction).len(),
    ensures
        ({
            let out = row_part(row, n.id, k, hop, st);
            let ps = part_picks(n.id, k, hop, st);
            let edges = semantics::edges_at(st, n.id, hop.direction);
            &&& out.len() == ps.len()
            &&& forall|x: int|
                0 <= x < ps.len() ==> matches(row, #[trigger] ps[x], hop, st) && reaches(
                    out[x],
                    row,
                    ps[x],
                    hop,
                    st,
                )
            &&& forall|x: int|
                0 <= x < ps.len() ==> exists|j: int|
                    0 <= j < k && (#[trigger] edges[j]).id == #[trigger] ps[x]
            &&& forall|j: int|
                0 <= j < k && semantics::of_type(hop.types, (#[trigger] edges[j]).label)
                    ==> ps.contains(edges[j].id as int)
        }),
    decreases k,
{
    let edges = semantics::edges_at(st, n.id, hop.direction);
    let ids = paths::ids_at(st, n.id, hop.direction);
    if k > 0 {
        lemma_part(row, n, k - 1, hop, st);
        lemma_edges(st, n.id, hop.direction);
        paths::lemma_ids_at(st, n.id, hop.direction);
        let e = edges[k - 1];
        let m = e.id as int;
        assert(ids[k - 1] == e.id);
        assert(st.edges[m] == Some(e));
        assert(store::edge_at(st, ids[k - 1]) is Some);
        let to = semantics::other_end(e, n.id, hop.direction);
        assert(store::node_at(st, e.src) is Some && store::node_at(st, e.dst) is Some);
        let f = store::node_at(st, to)->0;
        assert(st.nodes[to as int] == Some(f));
        let before = part_picks(n.id, k - 1, hop, st);
        let ps = part_picks(n.id, k, hop, st);
        if semantics::of_type(hop.types, e.label) {
            lemma_hop_row(row, hop, m, n, f, st);
            assert(ps == before.push(m));
            if hop.types.len() > 0 {
                let q = choose|q: int| 0 <= q < hop.types.len() && #[trigger] hop.types[q]
                    == e.label;
                assert(hop.types.contains(e.label));
            }
            assert(matches(row, m, hop, st));
            assert(ps[ps.len() - 1] == m);
        }
        assert forall|x: int| 0 <= x < ps.len() implies exists|j: int|
            0 <= j < k && (#[trigger] edges[j]).id == #[trigger] ps[x] by {
            if x < before.len() {
                assert(ps[x] == before[x]);
                let j = choose|j: int| 0 <= j < k - 1 && (#[trigger] edges[j]).id == before[x];
                assert(edges[j].id == ps[x]);
            } else {
                assert(edges[k - 1].id == ps[x]);
            }
        }
        assert forall|j: int|
            0 <= j < k && semantics::of_type(
                hop.types,
                (#[trigger] edges[j]).label,
            ) implies ps.contains(edges[j].id as int) by {
            if j < k - 1 {
                assert(before.contains(edges[j].id as int));
                let x = choose|x: int| 0 <= x < before.len() && before[x] == edges[j].id as int;
                assert(ps[x] == edges[j].id as int);
            }
        }
    }
}

/// Every relationship that fits is taken.
proof fn lemma_part_whole(row: RecV, n: NodeV, hop: HopV, st: StoreV)
    requires
        store::well_formed(st),
        assoc::lookup(row, hop.src) == Some(ValV::Node(n)),
    ensures
        ({
            let k = semantics::edges_at(st, n.id, hop.direction).len() as int;
            let ps = part_picks(n.id, k, hop, st);
            forall|m: int| #[trigger] matches(row, m, hop, st) ==> ps.contains(m)
        }),
{
    let edges = semantics::edges_at(st, n.id, hop.direction);
    let ids = paths::ids_at(st, n.id, hop.direction);
    let k = edges.len() as int;
    let ps = part_picks(n.id, k, hop, st);
    lemma_part(row, n, k, hop, st);
    lemma_edges(st, n.id, hop.direction);
    paths::lemma_ids_at(st, n.id, hop.direction);
    assert forall|m: int| #[trigger] matches(row, m, hop, st) implies ps.contains(m) by {
        let e = st.edges[m]->0;
        assert(e.id == m);
        assert(store::edge_at(st, e.id) == Some(e));
        assert(paths::leads_on(e, n.id, hop.direction));
        assert(ids.contains(e.id));
        let j = choose|j: int| 0 <= j < ids.len() && ids[j] == e.id;
        assert(edges[j] == e);
        if hop.types.len() > 0 {
            let q = choose|q: int| 0 <= q < hop.types.len() && hop.types[q] == e.label;
            assert(text::has_text(hop.types, e.label));
        }
    }
}

/// How often a relationship is taken.
proof fn lemma_part_once(id: u64, k: int, hop: HopV, st: StoreV)
    requires
        store::well_formed(st),
        0 <= k <= semantics::edges_at(st, id, hop.direction).len(),
    ensures
        ({
            let ps = part_picks(id, k, hop, st);
            forall|x: int, y: int|
                0 <= x < y < ps.len() && #[trigger] ps[x] == #[trigger] ps[y] ==> hop.direction
                    == Direction::Undirected && is_loop(st.edges[ps[x]]->0)
        }),
    decreases k,
{
    if k > 0 {
        lemma_part_once(id, k - 1, hop, st);
        lemma_edges(st, id, hop.direction);
        paths::lemma_ids_at(st, id, hop.direction);
        let edges = semantics::edges_at(st, id, hop.direction);
        let ids = paths::ids_at(st, id, hop.direction);
        let before = part_picks(id, k - 1, hop, st);
        let ps = part_picks(id, k, hop, st);
        let m = edges[k - 1].id as int;
        assert forall|x: int, y: int|
            0 <= x < y < ps.len() && #[trigger] ps[x] == #[trigger] ps[y] implies hop.direction
            == Direction::Undirected && is_loop(st.edges[ps[x]]->0) by {
            if y < before.len() {
                assert(before[x] == before[y]);
            } else {
                assert(ps[y] == m);
                assert(before[x] == m);
                lemma_part_from(id, k - 1, x, hop, st);
                let j = choose|j: int| 0 <= j < k - 1 && (#[trigger] edges[j]).id == before[x];
                assert(ids[j] == ids[k - 1]);
                lemma_directed_once(st, id, hop.direction, j, k - 1);
                assert(store::edge_at(st, ids[j]) == Some(edges[k - 1]));
            }
        }
    }
}

proof fn lemma_part_from(id: u64, k: int, x: int, hop: HopV, st: StoreV)
    requires
        0 <= k <= semantics::edges_at(st, id, hop.direction).len(),
        0 <= x < part_picks(id, k, hop, st).len(),
    ensures
        exists|j: int|
            0 <= j < k && (#[trigger] semantics::edges_at(st, id, hop.direction)[j]).id
                == part_picks(id, k, hop, st)[x],
    decreases k,
{
    if k > 0 {
        let edges = semantics::edges_at(st, id, hop.direction);
        let before = part_picks(id, k - 1, hop, st);
        if x < before.len() {
            lemma_part_from(id, k - 1, x, hop, st);
        } else {
            assert(edges[k - 1].id == part_picks(id, k, hop, st)[x]);
        }
    }
}

/// In one direction a relationship is met once.
proof fn lemma_directed_once(st: StoreV, id: u64, arrow: Direction, i: int, j: int)
    requires
        store::well_formed(st),
        0 <= i < j < paths::ids_at(st, id, arrow).len(),
        paths::ids_at(st, id, arrow)[i] == paths::ids_at(st, id, arrow)[j],
    ensures
        arrow == Direction::Undirected,
{
    let len = st.edges.len() as int;
    index::lemma_chosen_ids(st.edges, |e: EdgeV| e.src == id, len);
    index::lemma_chosen_ids(st.edges, |e: EdgeV| e.dst == id, len);
}

/// A loop is met twice where the arrow has no direction.
proof fn lemma_part_twice(row: RecV, n: NodeV, m: int, hop: HopV, st: StoreV)
    requires
        store::well_formed(st),
        assoc::lookup(row, hop.src) == Some(ValV::Node(n)),
        matches(row, m, hop, st),
        is_loop(st.edges[m]->0),
        hop.direction == Direction::Undirected,
    ensures
        ({
            let k = semantics::edges_at(st, n.id, hop.direction).len() as int;
            let ps = part_picks(n.id, k, hop, st);
            exists|x: int, y: int|
                0 <= x < y < ps.len() && #[trigger] ps[x] == m && #[trigger] ps[y] == m
        }),
{
    let e = st.edges[m]->0;
    let a = store::outgoing_ids(st, n.id);
    let b = store::incoming_ids(st, n.id);
    let len = st.edges.len() as int;
    index::lemma_chosen_ids(st.edges, |x: EdgeV| x.src == n.id, len);
    index::lemma_chosen_ids(st.edges, |x: EdgeV| x.dst == n.id, len);
    assert(e.id == m);
    assert(a.contains(e.id) && b.contains(e.id));
    let i = choose|i: int| 0 <= i < a.len() && a[i] == e.id;
    let j = choose|j: int| 0 <= j < b.len() && b[j] == e.id;
    let ids = paths::ids_at(st, n.id, hop.direction);
    let edges = semantics::edges_at(st, n.id, hop.direction);
    lemma_edges(st, n.id, hop.direction);
    let q = a.len() + j;
    assert(ids[i] == e.id && ids[q] == e.id);
    assert(edges[i] == e && edges[q] == e);
    if hop.types.len() > 0 {
        let w = choose|w: int| 0 <= w < hop.types.len() && hop.types[w] == e.label;
        assert(text::has_text(hop.types, e.label));
    }
    lemma_part_grows(n.id, i + 1, q, hop, st);
    lemma_part_grows(n.id, q + 1, edges.len() as int, hop, st);
    let x = part_picks(n.id, i, hop, st).len() as int;
    let y = part_picks(n.id, q, hop, st).len() as int;
    let ps = part_picks(n.id, edges.len() as int, hop, st);
    assert(part_picks(n.id, i + 1, hop, st)[x] == m);
    assert(part_picks(n.id, q, hop, st)[x] == m);
    assert(part_picks(n.id, q + 1, hop, st)[x] == m);
    assert(part_picks(n.id, q + 1, hop, st)[y] == m);
    assert(ps[x] == m && ps[y] == m);
}

proof fn lemma_part_grows(id: u64, i: int, j: int, hop: HopV, st: StoreV)
    requires
        0 <= i <= j <= semantics::edges_at(st, id, hop.direction).len(),
    ensures
        ({
            let p = part_picks(id, i, hop, st);
            let q = part_picks(id, j, hop, st);
            &&& p.len() <= q.len()
            &&& forall|x: int| 0 <= x < p.len() ==> #[trigger] q[x] == p[x]
        }),
    decreases j - i,
{
    if i < j {
        lemma_part_grows(id, i, j - 1, hop, st);
    }
}

// ---------------------------------------------------------------------------
// All rows
// ---------------------------------------------------------------------------

spec fn pairs_with(i: int, ps: Seq<int>) -> Seq<(int, int)> {
    Seq::new(ps.len(), |x: int| (i, ps[x]))
}

spec fn own_picks(row: RecV, hop: HopV, st: StoreV) -> Seq<int> {
    match assoc::lookup(row, hop.src) {
        Some(ValV::Node(n)) => part_picks(
            n.id,
            semantics::edges_at(st, n.id, hop.direction).len() as int,
            hop,
            st,
        ),
        _ => seq![],
    }
}

proof fn lemma_rows(rs: Seq<RecV>, k: int, hop: HopV, st: StoreV) -> (picks: Seq<(int, int)>)
    requires
        store::well_formed(st),
        0 <= k <= rs.len(),
    ensures
        ({
            let out = all_rows(rs, k, hop, st);
            &&& out.len() == picks.len()
            &&& forall|x: int|
                0 <= x < picks.len() ==> {
                    let p = #[trigger] picks[x];
                    &&& 0 <= p.0 < k
                    &&& matches(rs[p.0], p.1, hop, st)
                    &&& reaches(out[x], rs[p.0], p.1, hop, st)
                }
            &&& forall|i: int, m: int|
                0 <= i < k && #[trigger] matches(rs[i], m, hop, st) ==> picks.contains((i, m))
            &&& forall|x: int, y: int|
                0 <= x < y < picks.len() && #[trigger] picks[x] == #[trigger] picks[y]
                    ==> hop.direction == Direction::Undirected && is_loop(
                    st.edges[picks[x].1]->0,
                )
            &&& hop.direction == Direction::Undirected ==> forall|i: int, m: int|
                0 <= i < k && #[trigger] matches(rs[i], m, hop, st) && is_loop(st.edges[m]->0)
                    ==> exists|x: int, y: int|
                    0 <= x < y < picks.len() && #[trigger] picks[x] == (i, m) && #[trigger] picks[y]
                        == (i, m)
        }),
    decreases k,
{
    if k == 0 {
        seq![]
    } else {
        let before = lemma_rows(rs, k - 1, hop, st);
        let row = rs[k - 1];
        let ps = own_picks(row, hop, st);
        let own = own_rows(row, hop, st);
        let mine = pairs_with(k - 1, ps);
        let picks = before + mine;
        let old = all_rows(rs, k - 1, hop, st);
        let out = all_rows(rs, k, hop, st);
        if let Some(ValV::Node(n)) = assoc::lookup(row, hop.src) {
            let all = semantics::edges_at(st, n.id, hop.direction).len() as int;
            lemma_part(row, n, all, hop, st);
            lemma_part_whole(row, n, hop, st);
            lemma_part_once(n.id, all, hop, st);
        }
        assert(own.len() == ps.len());
        assert forall|x: int| 0 <= x < picks.len() implies {
            let p = #[trigger] picks[x];
            &&& 0 <= p.0 < k
            &&& matches(rs[p.0], p.1, hop, st)
            &&& reaches(out[x], rs[p.0], p.1, hop, st)
        } by {
            if x < before.len() {
                assert(picks[x] == before[x]);
                assert(out[x] == old[x]);
            } else {
                let y = x - before.len();
                assert(picks[x] == mine[y]);
                assert(out[x] == own[y]);
                assert(matches(row, ps[y], hop, st));
            }
        }
        assert forall|i: int, m: int|
            0 <= i < k && #[trigger] matches(rs[i], m, hop, st) implies picks.contains((i, m)) by {
            if i < k - 1 {
                assert(before.contains((i, m)));
                let x = choose|x: int| 0 <= x < before.len() && before[x] == (i, m);
                assert(picks[x] == (i, m));
            } else {
                assert(ps.contains(m));
                let y = choose|y: int| 0 <= y < ps.len() && ps[y] == m;
                assert(picks[before.len() + y] == (i, m));
            }
        }
        assert forall|x: int, y: int|
            0 <= x < y < picks.len() && #[trigger] picks[x] == #[trigger] picks[y] implies
            hop.direction == Direction::Undirected && is_loop(st.edges[picks[x].1]->0) by {
            if y < before.len() {
                assert(before[x] == before[y]);
            } else if x < before.len() {
                assert(before[x].0 < k - 1);
                assert(picks[y] == mine[y - before.len()]);
            } else {
                assert(ps[x - before.len()] == ps[y - before.len()]);
            }
        }
        if hop.direction == Direction::Undirected {
            assert forall|i: int, m: int|
                0 <= i < k && #[trigger] matches(rs[i], m, hop, st) && is_loop(
                    st.edges[m]->0,
                ) implies exists|x: int, y: int|
                0 <= x < y < picks.len() && #[trigger] picks[x] == (i, m) && #[trigger] picks[y]
                    == (i, m) by {
                if i < k - 1 {
                    let (x, y) = choose|x: int, y: int|
                        0 <= x < y < before.len() && #[trigger] before[x] == (i, m)
                            && #[trigger] before[y] == (i, m);
                    assert(picks[x] == (i, m) && picks[y] == (i, m));
                } else {
                    let n = assoc::lookup(row, hop.src)->0->Node_0;
                    lemma_part_twice(row, n, m, hop, st);
                    let (x, y) = choose|x: int, y: int|
                        0 <= x < y < ps.len() && #[trigger] ps[x] == m && #[trigger] ps[y] == m;
                    let w = before.len() as int;
                    assert(picks[w + x] == (i, m) && picks[w + y] == (i, m));
                }
            }
        }
        picks
    }
}

} // verus!
