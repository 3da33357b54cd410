//! Chains of relationships: patterns of variable length.
use crate::aggregate::recs_outcome;
use crate::assoc;
use crate::ast::Direction;
use crate::backend::StorageBackend;
use crate::error::{CypherError, ErrV};
use crate::eval::{far_end, type_fits};
use crate::plan::HopV;
use crate::rows::{self, add_col, add_opt_col, append_rows, make_hop_row, Hop, Table, TableV};
use crate::semantics;
use crate::store::{self, StoreV};
use crate::value::{self, CypherValue, EdgeId, EdgeV, NodeId, RecV, Record, ValV};
use vstd::prelude::*;

verus! {

// ---------------------------------------------------------------------------
// Paths that share their beginnings
// ---------------------------------------------------------------------------

/// Each entry of an arena is a step: the entry before it on its path, if any,
/// and a number. Entries come after those that they refer to.
pub open spec fn arena_ok(arena: Seq<(Option<u32>, u64)>) -> bool {
    forall|i: int|
        0 <= i < arena.len() ==> ((#[trigger] arena[i]).0 matches Some(p) ==> p < i)
}

pub open spec fn in_arena(arena: Seq<(Option<u32>, u64)>, cur: Option<u32>) -> bool {
    cur matches Some(i) ==> i < arena.len()
}

/// The numbers on the path that ends at an entry, the first step first.
pub open spec fn chain_of(arena: Seq<(Option<u32>, u64)>, cur: Option<u32>) -> Seq<u64>
    decreases
            match cur {
                Some(i) => i + 1,
                None => 0,
            },
{
    match cur {
        None => seq![],
        Some(i) => if i < arena.len() && (arena[i as int].0 matches Some(p) ==> p < i) {
            chain_of(arena, arena[i as int].0).push(arena[i as int].1)
        } else {
            seq![]
        },
    }
}

/// Whether a relationship is on the path that ends at an entry.
pub fn path_chain_contains(
    arena: &Vec<(Option<u32>, EdgeId)>,
    cur: Option<u32>,
    edge: EdgeId,
) -> (r: bool)
    requires
        arena_ok(arena@),
        in_arena(arena@, cur),
    ensures
        r == chain_of(arena@, cur).contains(edge),
{
    let ghost first = cur;
    let mut at = cur;
    while at.is_some()
        invariant
            arena_ok(arena@),
            in_arena(arena@, at),
            first == cur,
            chain_of(arena@, first).contains(edge) == chain_of(arena@, at).contains(edge),
        decreases
                match at {
                    Some(i) => i + 1,
                    None => 0,
                },
    {
        let i = at.unwrap();
        let (parent, e) = arena[i as usize];
        proof {
            let rest = chain_of(arena@, parent);
            assert(arena@[i as int].0 == parent);
            assert(chain_of(arena@, at) == rest.push(e));
            assert(rest.push(e).contains(edge) == (rest.contains(edge) || e == edge)) by {
                if rest.contains(edge) {
                    let k = choose|k: int| 0 <= k < rest.len() && rest[k] == edge;
                    assert(rest.push(e)[k] == edge);
                }
                if e == edge {
                    assert(rest.push(e)[rest.len() as int] == edge);
                }
            }
        }
        if e == edge {
            return true;
        }
        at = parent;
    }
    false
}

/// The part of an arena of steps with nodes that says which relationships
/// were taken.
pub open spec fn edges_arena(arena: Seq<(Option<u32>, u64, u64)>) -> Seq<(Option<u32>, u64)> {
    Seq::new(arena.len(), |i: int| (arena[i].0, arena[i].1))
}

/// The part of an arena of steps with nodes that says which nodes were
/// reached.
pub open spec fn nodes_arena(arena: Seq<(Option<u32>, u64, u64)>) -> Seq<(Option<u32>, u64)> {
    Seq::new(arena.len(), |i: int| (arena[i].0, arena[i].2))
}

/// Whether a relationship is on the path that ends at an entry of an arena
/// whose steps also hold the nodes that they reach.
pub fn path_chain_contains_sp(
    arena: &Vec<(Option<u32>, EdgeId, NodeId)>,
    cur: Option<u32>,
    edge: EdgeId,
) -> (r: bool)
    requires
        arena_ok(edges_arena(arena@)),
        in_arena(edges_arena(arena@), cur),
    ensures
        r == chain_of(edges_arena(arena@), cur).contains(edge),
{
    let ghost a = edges_arena(arena@);
    let ghost first = cur;
    let mut at = cur;
    while at.is_some()
        invariant
            a == edges_arena(arena@),
            arena_ok(a),
            in_arena(a, at),
            first == cur,
            chain_of(a, first).contains(edge) == chain_of(a, at).contains(edge),
        decreases
                match at {
                    Some(i) => i + 1,
                    None => 0,
                },
    {
        let i = at.unwrap();
        let (parent, e, _) = arena[i as usize];
        proof {
            let rest = chain_of(a, parent);
            assert(a[i as int] == (parent, e));
            assert(chain_of(a, at) == rest.push(e));
            assert(rest.push(e).contains(edge) == (rest.contains(edge) || e == edge)) by {
                if rest.contains(edge) {
                    let k = choose|k: int| 0 <= k < rest.len() && rest[k] == edge;
                    assert(rest.push(e)[k] == edge);
                }
                if e == edge {
                    assert(rest.push(e)[rest.len() as int] == edge);
                }
            }
        }
        if e == edge {
            return true;
        }
        at = parent;
    }
    false
}

/// What is added to an arena does not change the paths that are in it.
pub proof fn lemma_chain_prefix(
    a: Seq<(Option<u32>, u64)>,
    b: Seq<(Option<u32>, u64)>,
    cur: Option<u32>,
)
    requires
        a.len() <= b.len(),
        b.take(a.len() as int) == a,
        in_arena(a, cur),
    ensures
        chain_of(a, cur) == chain_of(b, cur),
    decreases
            match cur {
                Some(i) => i + 1,
                None => 0,
            },
{
    match cur {
        None => {},
        Some(i) => {
            assert(a[i as int] == b[i as int]) by {
                assert(b.take(a.len() as int)[i as int] == b[i as int]);
            }
            if a[i as int].0 matches Some(p) ==> p < i {
                lemma_chain_prefix(a, b, a[i as int].0);
            }
        },
    }
}

// ---------------------------------------------------------------------------
// Trails
// ---------------------------------------------------------------------------

/// A chain of relationships without repetition, and the node at its end.
pub struct TrailV {
    pub edges: Seq<u64>,
    pub end: u64,
}

/// The identifiers of the relationships at a node in a direction.
pub open spec fn ids_at(st: StoreV, id: u64, direction: Direction) -> Seq<u64> {
    match direction {
        Direction::Outgoing => store::outgoing_ids(st, id),
        Direction::Incoming => store::incoming_ids(st, id),
        Direction::Undirected => store::outgoing_ids(st, id) + store::incoming_ids(st, id),
    }
}

/// A relationship can be taken after a trail.
pub open spec fn can_take(t: TrailV, id: u64, types: Seq<Seq<char>>, st: StoreV) -> bool {
    !t.edges.contains(id) && (store::edge_at(st, id) matches Some(e) && semantics::of_type(
        types,
        e.label,
    ))
}

/// A trail after one more relationship.
pub open spec fn taken(t: TrailV, id: u64, direction: Direction, st: StoreV) -> TrailV {
    TrailV {
        edges: t.edges.push(id),
        end: semantics::other_end(store::edge_at(st, id)->0, t.end, direction),
    }
}

/// The trails that go on from one along the relationships from the `j`-th on.
pub open spec fn continued(
    t: TrailV,
    ids: Seq<u64>,
    j: int,
    acc: Seq<TrailV>,
    types: Seq<Seq<char>>,
    direction: Direction,
    st: StoreV,
) -> Seq<TrailV>
    decreases ids.len() - j,
{
    if j < 0 || j >= ids.len() {
        acc
    } else if can_take(t, ids[j], types, st) {
        continued(
            t,
            ids,
            j + 1,
            acc.push(taken(t, ids[j], direction, st)),
            types,
            direction,
            st,
        )
    } else {
        continued(t, ids, j + 1, acc, types, direction, st)
    }
}

/// The trails that go on from those from the `i`-th on.
pub open spec fn next_trails(
    trails: Seq<TrailV>,
    i: int,
    acc: Seq<TrailV>,
    types: Seq<Seq<char>>,
    direction: Direction,
    st: StoreV,
) -> Seq<TrailV>
    decreases trails.len() - i,
{
    if i < 0 || i >= trails.len() {
        acc
    } else {
        next_trails(
            trails,
            i + 1,
            continued(
                trails[i],
                ids_at(st, trails[i].end, direction),
                0,
                acc,
                types,
                direction,
                st,
            ),
            types,
            direction,
            st,
        )
    }
}

/// The trails with `k` relationships from a node.
pub open spec fn trails(
    start: u64,
    k: nat,
    types: Seq<Seq<char>>,
    direction: Direction,
    st: StoreV,
) -> Seq<TrailV>
    decreases k,
{
    if k == 0 {
        seq![TrailV { edges: seq![], end: start }]
    } else {
        next_trails(
            trails(start, (k - 1) as nat, types, direction, st),
            0,
            seq![],
            types,
            direction,
            st,
        )
    }
}

/// How many trails there are with one to `k` relationships.
pub open spec fn trail_count(
    start: u64,
    k: nat,
    types: Seq<Seq<char>>,
    direction: Direction,
    st: StoreV,
) -> nat
    decreases k,
{
    if k == 0 {
        0
    } else {
        trail_count(start, (k - 1) as nat, types, direction, st) + trails(
            start,
            k,
            types,
            direction,
            st,
        ).len()
    }
}

/// The node that a chain of relationships leads to from another, if each of
/// them fits and starts where the one before it ends.
pub open spec fn walk_end(
    start: u64,
    edges: Seq<u64>,
    types: Seq<Seq<char>>,
    direction: Direction,
    st: StoreV,
) -> Option<u64>
    decreases edges.len(),
{
    if edges.len() == 0 {
        Some(start)
    } else {
        match walk_end(start, edges.drop_last(), types, direction, st) {
            None => None,
            Some(n) => match store::edge_at(st, edges.last()) {
                None => None,
                Some(e) => if semantics::of_type(types, e.label) && leads_on(e, n, direction) {
                    Some(semantics::other_end(e, n, direction))
                } else {
                    None
                },
            },
        }
    }
}

/// A relationship can be followed from a node in a direction.
pub open spec fn leads_on(e: EdgeV, n: u64, direction: Direction) -> bool {
    match direction {
        Direction::Outgoing => e.src == n,
        Direction::Incoming => e.dst == n,
        Direction::Undirected => e.src == n || e.dst == n,
    }
}

proof fn lemma_chosen_ids(st: StoreV, p: spec_fn(EdgeV) -> bool, n: int)
    requires
        0 <= n <= st.edges.len(),
        store::well_formed(st),
    ensures
        forall|i: int|
            0 <= i < store::chosen_ids(st.edges, p, n).len() ==> {
                let id = #[trigger] store::chosen_ids(st.edges, p, n)[i];
                id < n && (st.edges[id as int] matches Some(e) && p(e))
            },
        forall|k: int|
            0 <= k < n && (#[trigger] st.edges[k] matches Some(e) && p(e)) ==> store::chosen_ids(
                st.edges,
                p,
                n,
            ).contains(k as u64),
        store::chosen_ids(st.edges, p, n).no_duplicates(),
    decreases n,
{
    if n > 0 {
        lemma_chosen_ids(st, p, n - 1);
        let before = store::chosen_ids(st.edges, p, n - 1);
        let now = store::chosen_ids(st.edges, p, n);
        assert forall|k: int|
            0 <= k < n && (#[trigger] st.edges[k] matches Some(e) && p(e)) implies now.contains(
            k as u64,
        ) by {
            if k == n - 1 {
                assert(now == before.push((n - 1) as u64));
                assert(now[now.len() - 1] == k as u64);
            } else {
                assert(before.contains(k as u64));
                let i = choose|i: int| 0 <= i < before.len() && before[i] == k as u64;
                assert(now[i] == k as u64);
            }
        }
    }
}

/// The relationships at a node are those that can be followed from it. Only one
/// that leads back to the node is met twice.
pub proof fn lemma_ids_at(st: StoreV, n: u64, direction: Direction)
    requires
        store::well_formed(st),
    ensures
        forall|i: int|
            0 <= i < ids_at(st, n, direction).len() ==> (store::edge_at(
                st,
                #[trigger] ids_at(st, n, direction)[i],
            ) matches Some(e) && leads_on(e, n, direction)),
        forall|id: u64|
            (#[trigger] store::edge_at(st, id) matches Some(e) && leads_on(e, n, direction))
                ==> ids_at(st, n, direction).contains(id),
        forall|i: int, j: int|
            #![trigger ids_at(st, n, direction)[i], ids_at(st, n, direction)[j]]
            0 <= i < j < ids_at(st, n, direction).len() && ids_at(st, n, direction)[i] == ids_at(
                st,
                n,
                direction,
            )[j] ==> (store::edge_at(st, ids_at(st, n, direction)[i]) matches Some(e) && e.src == n
                && e.dst == n),
{
    let len = st.edges.len() as int;
    let out = |e: EdgeV| e.src == n;
    let inc = |e: EdgeV| e.dst == n;
    lemma_chosen_ids(st, out, len);
    lemma_chosen_ids(st, inc, len);
    let a = store::outgoing_ids(st, n);
    let b = store::incoming_ids(st, n);
    assert(a == store::chosen_ids(st.edges, out, len));
    assert(b == store::chosen_ids(st.edges, inc, len));
    let ids = ids_at(st, n, direction);
    assert forall|i: int| 0 <= i < ids.len() implies (store::edge_at(st, #[trigger] ids[i]) matches Some(
        e,
    ) && leads_on(e, n, direction)) by {
        match direction {
            Direction::Outgoing => {
                assert(a[i] == ids[i]);
            },
            Direction::Incoming => {
                assert(b[i] == ids[i]);
            },
            Direction::Undirected => {
                if i < a.len() {
                    assert(a[i] == ids[i]);
                } else {
                    assert(b[i - a.len()] == ids[i]);
                }
            },
        }
    }
    assert forall|id: u64|
        (#[trigger] store::edge_at(st, id) matches Some(e) && leads_on(
            e,
            n,
            direction,
        )) implies ids.contains(id) by {
        let e = store::edge_at(st, id)->0;
        assert(st.edges[id as int] == Some(e));
        if direction != Direction::Incoming && e.src == n {
            assert(a.contains(id));
            let i = choose|i: int| 0 <= i < a.len() && a[i] == id;
            assert(ids[i] == id);
        } else {
            assert(b.contains(id));
            let i = choose|i: int| 0 <= i < b.len() && b[i] == id;
            if direction == Direction::Incoming {
                assert(ids[i] == id);
            } else {
                assert(ids[a.len() + i] == id);
            }
        }
    }
}

/// A trail of `k` relationships from a node.
pub open spec fn is_trail(
    t: TrailV,
    start: u64,
    k: nat,
    types: Seq<Seq<char>>,
    direction: Direction,
    st: StoreV,
) -> bool {
    &&& t.edges.len() == k
    &&& t.edges.no_duplicates()
    &&& walk_end(start, t.edges, types, direction, st) == Some(t.end)
}

pub open spec fn all_trails(
    s: Seq<TrailV>,
    start: u64,
    k: nat,
    types: Seq<Seq<char>>,
    direction: Direction,
    st: StoreV,
) -> bool {
    forall|i: int| 0 <= i < s.len() ==> is_trail(#[trigger] s[i], start, k, types, direction, st)
}

proof fn lemma_continued(
    t: TrailV,
    ids: Seq<u64>,
    j: int,
    acc: Seq<TrailV>,
    start: u64,
    k: nat,
    types: Seq<Seq<char>>,
    direction: Direction,
    st: StoreV,
)
    requires
        0 <= j <= ids.len(),
        is_trail(t, start, k, types, direction, st),
        all_trails(acc, start, k + 1, types, direction, st),
        forall|i: int|
            0 <= i < ids.len() ==> (store::edge_at(st, #[trigger] ids[i]) matches Some(e)
                ==> leads_on(e, t.end, direction)),
    ensures
        all_trails(
            continued(t, ids, j, acc, types, direction, st),
            start,
            k + 1,
            types,
            direction,
            st,
        ),
    decreases ids.len() - j,
{
    if j < ids.len() {
        if can_take(t, ids[j], types, st) {
            let n = taken(t, ids[j], direction, st);
            assert(n.edges.drop_last() =~= t.edges);
            assert(n.edges.no_duplicates());
            assert(is_trail(n, start, k + 1, types, direction, st));
            lemma_continued(t, ids, j + 1, acc.push(n), start, k, types, direction, st);
        } else {
            lemma_continued(t, ids, j + 1, acc, start, k, types, direction, st);
        }
    }
}

proof fn lemma_next_trails(
    s: Seq<TrailV>,
    i: int,
    acc: Seq<TrailV>,
    start: u64,
    k: nat,
    types: Seq<Seq<char>>,
    direction: Direction,
    st: StoreV,
)
    requires
        store::well_formed(st),
        0 <= i <= s.len(),
        all_trails(s, start, k, types, direction, st),
        all_trails(acc, start, k + 1, types, direction, st),
    ensures
        all_trails(
            next_trails(s, i, acc, types, direction, st),
            start,
            k + 1,
            types,
            direction,
            st,
        ),
    decreases s.len() - i,
{
    if i < s.len() {
        lemma_ids_at(st, s[i].end, direction);
        let ids = ids_at(st, s[i].end, direction);
        lemma_continued(s[i], ids, 0, acc, start, k, types, direction, st);
        lemma_next_trails(
            s,
            i + 1,
            continued(s[i], ids, 0, acc, types, direction, st),
            start,
            k,
            types,
            direction,
            st,
        );
    }
}

/// A pattern of variable length follows no relationship twice, and each
/// relationship of a trail starts where the one before it ends.
pub proof fn lemma_trails_sound(
    start: u64,
    k: nat,
    types: Seq<Seq<char>>,
    direction: Direction,
    st: StoreV,
)
    requires
        store::well_formed(st),
    ensures
        all_trails(trails(start, k, types, direction, st), start, k, types, direction, st),
    decreases k,
{
    if k > 0 {
        let m = (k - 1) as nat;
        lemma_trails_sound(start, m, types, direction, st);
        lemma_next_trails(
            trails(start, m, types, direction, st),
            0,
            seq![],
            start,
            m,
            types,
            direction,
            st,
        );
    }
}

proof fn lemma_continued_keeps(
    t: TrailV,
    ids: Seq<u64>,
    j: int,
    acc: Seq<TrailV>,
    x: TrailV,
    types: Seq<Seq<char>>,
    direction: Direction,
    st: StoreV,
)
    requires
        0 <= j <= ids.len(),
        acc.contains(x) || exists|i: int|
            j <= i < ids.len() && #[trigger] can_take(t, ids[i], types, st) && taken(
                t,
                ids[i],
                direction,
                st,
            ) == x,
    ensures
        continued(t, ids, j, acc, types, direction, st).contains(x),
    decreases ids.len() - j,
{
    if j < ids.len() {
        if can_take(t, ids[j], types, st) {
            let n = taken(t, ids[j], direction, st);
            if acc.contains(x) {
                let q = choose|q: int| 0 <= q < acc.len() && acc[q] == x;
                assert(acc.push(n)[q] == x);
            } else {
                let i = choose|i: int|
                    j <= i < ids.len() && #[trigger] can_take(t, ids[i], types, st) && taken(
                        t,
                        ids[i],
                        direction,
                        st,
                    ) == x;
                if i == j {
                    assert(acc.push(n)[acc.len() as int] == x);
                }
            }
            lemma_continued_keeps(t, ids, j + 1, acc.push(n), x, types, direction, st);
        } else {
            lemma_continued_keeps(t, ids, j + 1, acc, x, types, direction, st);
        }
    }
}

proof fn lemma_next_keeps(
    s: Seq<TrailV>,
    i: int,
    acc: Seq<TrailV>,
    x: TrailV,
    types: Seq<Seq<char>>,
    direction: Direction,
    st: StoreV,
)
    requires
        0 <= i <= s.len(),
        acc.contains(x) || exists|q: int|
            i <= q < s.len() && (#[trigger] continued(
                s[q],
                ids_at(st, s[q].end, direction),
                0,
                seq![],
                types,
                direction,
                st,
            )).contains(x),
    ensures
        next_trails(s, i, acc, types, direction, st).contains(x),
    decreases s.len() - i,
{
    if i < s.len() {
        let ids = ids_at(st, s[i].end, direction);
        let more = continued(s[i], ids, 0, acc, types, direction, st);
        if acc.contains(x) {
            lemma_continued_keeps(s[i], ids, 0, acc, x, types, direction, st);
        } else {
            let q = choose|q: int|
                i <= q < s.len() && (#[trigger] continued(
                    s[q],
                    ids_at(st, s[q].end, direction),
                    0,
                    seq![],
                    types,
                    direction,
                    st,
                )).contains(x);
            if q == i {
                lemma_continued_from(s[i], ids, 0, seq![], acc, types, direction, st);
                let own = continued(s[i], ids, 0, seq![], types, direction, st);
                assert(more =~= acc + own) by {
                    assert(acc + seq![] =~= acc);
                }
                let z = choose|z: int| 0 <= z < own.len() && own[z] == x;
                assert(more[acc.len() + z] == x);
            }
        }
        lemma_next_keeps(s, i + 1, more, x, types, direction, st);
    }
}

proof fn lemma_continued_from(
    t: TrailV,
    ids: Seq<u64>,
    j: int,
    acc: Seq<TrailV>,
    front: Seq<TrailV>,
    types: Seq<Seq<char>>,
    direction: Direction,
    st: StoreV,
)
    requires
        0 <= j <= ids.len(),
    ensures
        continued(t, ids, j, front + acc, types, direction, st) == front + continued(
            t,
            ids,
            j,
            acc,
            types,
            direction,
            st,
        ),
    decreases ids.len() - j,
{
    if j < ids.len() {
        if can_take(t, ids[j], types, st) {
            let n = taken(t, ids[j], direction, st);
            assert((front + acc).push(n) =~= front + acc.push(n));
            lemma_continued_from(t, ids, j + 1, acc.push(n), front, types, direction, st);
        } else {
            lemma_continued_from(t, ids, j + 1, acc, front, types, direction, st);
        }
    }
}

/// A pattern of variable length misses no trail: every chain of fitting
/// relationships without repetition is found.
pub proof fn lemma_trails_complete(
    start: u64,
    t: TrailV,
    types: Seq<Seq<char>>,
    direction: Direction,
    st: StoreV,
)
    requires
        store::well_formed(st),
        is_trail(t, start, t.edges.len(), types, direction, st),
    ensures
        trails(start, t.edges.len(), types, direction, st).contains(t),
    decreases t.edges.len(),
{
    let k = t.edges.len();
    if k == 0 {
        assert(t.edges =~= seq![]);
        assert(trails(start, 0, types, direction, st)[0] == t);
    } else {
        let m = (k - 1) as nat;
        let n = walk_end(start, t.edges.drop_last(), types, direction, st)->0;
        let before = TrailV { edges: t.edges.drop_last(), end: n };
        assert(before.edges.no_duplicates());
        lemma_trails_complete(start, before, types, direction, st);
        let s = trails(start, m, types, direction, st);
        let q = choose|q: int| 0 <= q < s.len() && s[q] == before;
        let id = t.edges.last();
        let ids = ids_at(st, n, direction);
        lemma_ids_at(st, n, direction);
        assert(store::edge_at(st, id) is Some);
        assert(ids.contains(id));
        let i = choose|i: int| 0 <= i < ids.len() && ids[i] == id;
        assert(!before.edges.contains(id)) by {
            if before.edges.contains(id) {
                let z = choose|z: int| 0 <= z < before.edges.len() && before.edges[z] == id;
                assert(t.edges[z] == t.edges[k - 1]);
            }
        }
        assert(before.edges.push(id) =~= t.edges);
        assert(taken(before, id, direction, st) == t);
        assert(can_take(before, ids[i], types, st));
        lemma_continued_keeps(before, ids, 0, seq![], t, types, direction, st);
        assert(continued(
            s[q],
            ids_at(st, s[q].end, direction),
            0,
            seq![],
            types,
            direction,
            st,
        ).contains(t));
        lemma_next_keeps(s, 0, seq![], t, types, direction, st);
    }
}

// ---------------------------------------------------------------------------
// Rows
// ---------------------------------------------------------------------------

/// The relationships with identifiers from the `i`-th on, as values.
pub open spec fn edges_with_ids(ids: Seq<u64>, i: int, acc: Seq<ValV>, st: StoreV) -> Seq<ValV>
    decreases ids.len() - i,
{
    if i < 0 || i >= ids.len() {
        acc
    } else {
        match store::edge_at(st, ids[i]) {
            Some(e) => edges_with_ids(ids, i + 1, acc.push(ValV::Relationship(e)), st),
            None => edges_with_ids(ids, i + 1, acc, st),
        }
    }
}

/// The rows for trails from the `i`-th on.
pub open spec fn trail_rows(
    s: Seq<TrailV>,
    i: int,
    acc: Seq<RecV>,
    rec: RecV,
    hop: HopV,
    st: StoreV,
) -> Seq<RecV>
    decreases s.len() - i,
{
    if i < 0 || i >= s.len() {
        acc
    } else {
        match store::node_at(st, s[i].end) {
            None => trail_rows(s, i + 1, acc, rec, hop, st),
            Some(n) => trail_rows(
                s,
                i + 1,
                acc.push(
                    rows::hop_row(
                        rec,
                        hop,
                        ValV::List(edges_with_ids(s[i].edges, 0, seq![], st)),
                        n,
                    ),
                ),
                rec,
                hop,
                st,
            ),
        }
    }
}

/// The rows for the trails with at least `min` and at most `k` relationships,
/// shorter ones first.
pub open spec fn rows_upto(
    rec: RecV,
    start: u64,
    hop: HopV,
    min: u64,
    k: nat,
    st: StoreV,
) -> Seq<RecV>
    decreases k,
{
    if k == 0 {
        seq![]
    } else {
        let before = rows_upto(rec, start, hop, min, (k - 1) as nat, st);
        if k >= min {
            trail_rows(
                trails(start, k, hop.types, hop.direction, st),
                0,
                before,
                rec,
                hop,
                st,
            )
        } else {
            before
        }
    }
}

/// How far an unbounded pattern is followed.
pub const DEFAULT_MAX_HOPS: u64 = 100;

/// How many trails one search can hold.
pub const ARENA_CAPACITY: u64 = 0x1_0000_0000;

pub open spec fn hop_limit(max: Option<u64>) -> u64 {
    match max {
        Some(m) => m,
        None => DEFAULT_MAX_HOPS,
    }
}

pub open spec fn hop_limit_message() -> Seq<char> {
    "Variable-length path traversal exceeded the default limit of 100 hops. Use an explicit upper bound, e.g. [*..100], to suppress this error."@
}

pub open spec fn arena_message() -> Seq<char> {
    "Variable-length path traversal exceeded internal path arena capacity"@
}

/// The rows that one row gives. An unbounded pattern must end within the
/// default limit.
pub open spec fn var_length_row(
    rec: RecV,
    start: u64,
    hop: HopV,
    min: u64,
    max: Option<u64>,
    st: StoreV,
) -> Result<Seq<RecV>, ErrV> {
    let k = hop_limit(max) as nat;
    if trail_count(start, k, hop.types, hop.direction, st) > ARENA_CAPACITY {
        Err(ErrV::Runtime(arena_message()))
    } else if max is None && trails(start, k, hop.types, hop.direction, st).len() > 0 {
        Err(ErrV::Runtime(hop_limit_message()))
    } else {
        Ok(rows_upto(rec, start, hop, min, k, st))
    }
}

pub open spec fn var_length_rows(
    rows: Seq<RecV>,
    i: int,
    acc: Seq<RecV>,
    hop: HopV,
    min: u64,
    max: Option<u64>,
    st: StoreV,
) -> Result<Seq<RecV>, ErrV>
    decreases rows.len() - i,
{
    if i < 0 || i >= rows.len() {
        Ok(acc)
    } else {
        match assoc::lookup(rows[i], hop.src) {
            Some(ValV::Node(n)) => match var_length_row(rows[i], n.id, hop, min, max, st) {
                Err(x) => Err(x),
                Ok(more) => var_length_rows(rows, i + 1, acc + more, hop, min, max, st),
            },
            _ => var_length_rows(rows, i + 1, acc, hop, min, max, st),
        }
    }
}

// ---------------------------------------------------------------------------
// The search
// ---------------------------------------------------------------------------

/// The identifiers of the relationships at a node in a direction.
pub fn edge_ids_in_direction<S: StorageBackend>(storage: &S, id: NodeId, direction: Direction) -> (r:
    Vec<EdgeId>)
    requires
        storage.valid(),
    ensures
        r@ == ids_at(storage.store(), id, direction),
{
    match direction {
        Direction::Outgoing => storage.outgoing_edge_ids(id),
        Direction::Incoming => storage.incoming_edge_ids(id),
        Direction::Undirected => {
            let mut all = storage.outgoing_edge_ids(id);
            let mut more = storage.incoming_edge_ids(id);
            all.append(&mut more);
            all
        },
    }
}

/// The trails at the edge of a search: the nodes that were reached, and the
/// entries of the arena by which they were.
spec fn frontier_trails(
    frontier: Seq<(u64, Option<u32>)>,
    arena: Seq<(Option<u32>, u64)>,
) -> Seq<TrailV> {
    Seq::new(
        frontier.len(),
        |i: int| TrailV { edges: chain_of(arena, frontier[i].1), end: frontier[i].0 },
    )
}

spec fn frontier_ok(frontier: Seq<(u64, Option<u32>)>, arena: Seq<(Option<u32>, u64)>) -> bool {
    forall|i: int| 0 <= i < frontier.len() ==> in_arena(arena, (#[trigger] frontier[i]).1)
}

spec fn extends(a: Seq<(Option<u32>, u64)>, b: Seq<(Option<u32>, u64)>) -> bool {
    a.len() <= b.len() && b.take(a.len() as int) == a
}

proof fn lemma_frontier_extends(
    frontier: Seq<(u64, Option<u32>)>,
    a: Seq<(Option<u32>, u64)>,
    b: Seq<(Option<u32>, u64)>,
)
    requires
        extends(a, b),
        frontier_ok(frontier, a),
    ensures
        frontier_ok(frontier, b),
        frontier_trails(frontier, a) == frontier_trails(frontier, b),
{
    assert forall|i: int| 0 <= i < frontier.len() implies chain_of(
        a,
        (#[trigger] frontier[i]).1,
    ) == chain_of(b, frontier[i].1) by {
        lemma_chain_prefix(a, b, frontier[i].1);
    }
    assert(frontier_trails(frontier, a) =~= frontier_trails(frontier, b));
}

proof fn lemma_continued_len(
    t: TrailV,
    ids: Seq<u64>,
    j: int,
    acc: Seq<TrailV>,
    types: Seq<Seq<char>>,
    direction: Direction,
    st: StoreV,
)
    requires
        0 <= j <= ids.len(),
    ensures
        continued(t, ids, j, acc, types, direction, st).len() >= acc.len(),
    decreases ids.len() - j,
{
    if j < ids.len() {
        if can_take(t, ids[j], types, st) {
            lemma_continued_len(
                t,
                ids,
                j + 1,
                acc.push(taken(t, ids[j], direction, st)),
                types,
                direction,
                st,
            );
        } else {
            lemma_continued_len(t, ids, j + 1, acc, types, direction, st);
        }
    }
}

proof fn lemma_next_len(
    s: Seq<TrailV>,
    i: int,
    acc: Seq<TrailV>,
    types: Seq<Seq<char>>,
    direction: Direction,
    st: StoreV,
)
    requires
        0 <= i <= s.len(),
    ensures
        next_trails(s, i, acc, types, direction, st).len() >= acc.len(),
    decreases s.len() - i,
{
    if i < s.len() {
        let ids = ids_at(st, s[i].end, direction);
        lemma_continued_len(s[i], ids, 0, acc, types, direction, st);
        lemma_next_len(
            s,
            i + 1,
            continued(s[i], ids, 0, acc, types, direction, st),
            types,
            direction,
            st,
        );
    }
}

proof fn lemma_count_grows(
    start: u64,
    k: nat,
    m: nat,
    types: Seq<Seq<char>>,
    direction: Direction,
    st: StoreV,
)
    requires
        k <= m,
    ensures
        trail_count(start, k, types, direction, st) <= trail_count(start, m, types, direction, st),
    decreases m,
{
    if k < m {
        lemma_count_grows(start, k, (m - 1) as nat, types, direction, st);
    }
}

/// Where there are no trails of a length, there are none that are longer.
proof fn lemma_trails_end(
    rec: RecV,
    start: u64,
    hop: HopV,
    min: u64,
    k: nat,
    m: nat,
    st: StoreV,
)
    requires
        k <= m,
        trails(start, k, hop.types, hop.direction, st).len() == 0,
    ensures
        trails(start, m, hop.types, hop.direction, st).len() == 0,
        trail_count(start, m, hop.types, hop.direction, st) == trail_count(
            start,
            k,
            hop.types,
            hop.direction,
            st,
        ),
        rows_upto(rec, start, hop, min, m, st) == rows_upto(rec, start, hop, min, k, st),
    decreases m,
{
    if k < m {
        lemma_trails_end(rec, start, hop, min, k, (m - 1) as nat, st);
    }
}

fn extend_trail<S: StorageBackend>(
    at: NodeId,
    path: Option<u32>,
    arena: &mut Vec<(Option<u32>, EdgeId)>,
    next: &mut Vec<(NodeId, Option<u32>)>,
    hop: &Hop,
    storage: &S,
) -> (r: Result<(), CypherError>)
    requires
        storage.valid(),
        arena_ok(old(arena)@),
        in_arena(old(arena)@, path),
        frontier_ok(old(next)@, old(arena)@),
        old(arena)@.len() <= ARENA_CAPACITY,
        old(next)@.len() <= old(arena)@.len(),
    ensures
        ({
            let t = TrailV { edges: chain_of(old(arena)@, path), end: at };
            let want = continued(
                t,
                ids_at(storage.store(), at, hop@.direction),
                0,
                frontier_trails(old(next)@, old(arena)@),
                hop@.types,
                hop@.direction,
                storage.store(),
            );
            match r {
                Ok(_) => {
                    &&& frontier_trails(final(next)@, final(arena)@) == want
                    &&& arena_ok(final(arena)@)
                    &&& frontier_ok(final(next)@, final(arena)@)
                    &&& extends(old(arena)@, final(arena)@)
                    &&& final(arena)@.len() - old(arena)@.len() == final(next)@.len() - old(
                        next,
                    )@.len()
                    &&& final(arena)@.len() <= ARENA_CAPACITY
                },
                Err(e) => {
                    &&& e@ == ErrV::Runtime(arena_message())
                    &&& want.len() - old(next)@.len() + old(arena)@.len() > ARENA_CAPACITY
                },
            }
        }),
{
    let ghost arena0 = arena@;
    let ghost next0 = next@;
    let ghost t = TrailV { edges: chain_of(arena@, path), end: at };
    let ghost st = storage.store();
    let ghost types = hop@.types;
    let ghost dir = hop@.direction;
    let ids = edge_ids_in_direction(storage, at, hop.direction);
    let ghost want = continued(t, ids@, 0, frontier_trails(next@, arena@), types, dir, st);
    let mut j: usize = 0;
    proof {
        assert(arena@.take(arena@.len() as int) =~= arena@);
    }
    while j < ids.len()
        invariant
            storage.valid(),
            st == storage.store(),
            types == hop@.types,
            dir == hop@.direction,
            ids@ == ids_at(st, at, dir),
            arena0 == old(arena)@,
            next0 == old(next)@,
            t == (TrailV { edges: chain_of(arena0, path), end: at }),
            want == continued(t, ids@, 0, frontier_trails(next0, arena0), types, dir, st),
            in_arena(arena0, path),
            extends(arena0, arena@),
            arena_ok(arena@),
            frontier_ok(next@, arena@),
            arena@.len() - arena0.len() == next@.len() - next0.len(),
            arena@.len() <= ARENA_CAPACITY,
            j <= ids.len(),
            want == continued(t, ids@, j as int, frontier_trails(next@, arena@), types, dir, st),
        decreases ids.len() - j,
    {
        let id = ids[j];
        proof {
            lemma_chain_prefix(arena0, arena@, path);
        }
        if let Some(edge) = storage.get_edge(id) {
            if !path_chain_contains(arena, path, id) && type_fits(hop.types, edge.label.as_str()) {
                let ghost before = arena@;
                let ghost reached = frontier_trails(next@, arena@);
                proof {
                    lemma_continued_len(
                        t,
                        ids@,
                        j as int + 1,
                        reached.push(taken(t, id, dir, st)),
                        types,
                        dir,
                        st,
                    );
                }
                if arena.len() as u64 > 0xffff_ffff {
                    return Err(
                        CypherError::RuntimeError(
                            "Variable-length path traversal exceeded internal path arena capacity".to_owned(),
                        ),
                    );
                }
                let at_entry = arena.len() as u32;
                let to = far_end(&edge, at, hop.direction);
                arena.push((path, id));
                next.push((to, Some(at_entry)));
                proof {
                    assert(extends(before, arena@)) by {
                        assert(arena@.take(before.len() as int) =~= before);
                    }
                    assert(extends(arena0, arena@)) by {
                        assert(arena@.take(arena0.len() as int) =~= before.take(
                            arena0.len() as int,
                        ));
                    }
                    let old_next = next@.drop_last();
                    lemma_frontier_extends(old_next, before, arena@);
                    lemma_chain_prefix(before, arena@, path);
                    assert(chain_of(arena@, Some(at_entry)) == chain_of(arena@, path).push(id));
                    assert(frontier_ok(next@, arena@)) by {
                        assert forall|i: int| 0 <= i < next@.len() implies in_arena(
                            arena@,
                            (#[trigger] next@[i]).1,
                        ) by {
                            if i < old_next.len() {
                                assert(next@[i] == old_next[i]);
                            }
                        }
                    }
                    assert(frontier_trails(next@, arena@) =~= reached.push(taken(t, id, dir, st)))
                        by {
                        assert(frontier_trails(old_next, arena@) == reached);
                        assert forall|i: int| 0 <= i < next@.len() implies #[trigger] frontier_trails(
                            next@,
                            arena@,
                        )[i] == reached.push(taken(t, id, dir, st))[i] by {
                            if i < old_next.len() {
                                assert(next@[i] == old_next[i]);
                                assert(frontier_trails(old_next, arena@)[i]
                                    == frontier_trails(next@, arena@)[i]);
                            }
                        }
                    }
                }
            }
        }
        j += 1;
    }
    Ok(())
}

/// One more relationship for every trail.
fn next_frontier<S: StorageBackend>(
    frontier: &Vec<(NodeId, Option<u32>)>,
    arena: &mut Vec<(Option<u32>, EdgeId)>,
    hop: &Hop,
    storage: &S,
) -> (r: Result<Vec<(NodeId, Option<u32>)>, CypherError>)
    requires
        storage.valid(),
        arena_ok(old(arena)@),
        frontier_ok(frontier@, old(arena)@),
        old(arena)@.len() <= ARENA_CAPACITY,
    ensures
        ({
            let want = next_trails(
                frontier_trails(frontier@, old(arena)@),
                0,
                seq![],
                hop@.types,
                hop@.direction,
                storage.store(),
            );
            match r {
                Ok(next) => {
                    &&& frontier_trails(next@, final(arena)@) == want
                    &&& arena_ok(final(arena)@)
                    &&& frontier_ok(next@, final(arena)@)
                    &&& final(arena)@.len() == old(arena)@.len() + next@.len()
                    &&& final(arena)@.len() <= ARENA_CAPACITY
                },
                Err(e) => {
                    &&& e@ == ErrV::Runtime(arena_message())
                    &&& want.len() + old(arena)@.len() > ARENA_CAPACITY
                },
            }
        }),
{
    let ghost arena0 = arena@;
    let ghost s = frontier_trails(frontier@, arena0);
    let ghost st = storage.store();
    let ghost types = hop@.types;
    let ghost dir = hop@.direction;
    let mut next: Vec<(NodeId, Option<u32>)> = Vec::new();
    let mut i: usize = 0;
    proof {
        assert(frontier_trails(next@, arena@) =~= seq![]);
        assert(arena@.take(arena@.len() as int) =~= arena@);
    }
    while i < frontier.len()
        invariant
            storage.valid(),
            st == storage.store(),
            types == hop@.types,
            dir == hop@.direction,
            arena0 == old(arena)@,
            s == frontier_trails(frontier@, arena0),
            frontier_ok(frontier@, arena0),
            extends(arena0, arena@),
            arena_ok(arena@),
            frontier_ok(next@, arena@),
            arena@.len() == arena0.len() + next@.len(),
            arena@.len() <= ARENA_CAPACITY,
            i <= frontier.len(),
            next_trails(s, 0, seq![], types, dir, st) == next_trails(
                s,
                i as int,
                frontier_trails(next@, arena@),
                types,
                dir,
                st,
            ),
        decreases frontier.len() - i,
    {
        let (at, path) = frontier[i];
        let ghost before = arena@;
        let ghost reached = frontier_trails(next@, arena@);
        proof {
            assert(frontier@[i as int].1 == path);
            lemma_chain_prefix(arena0, arena@, path);
            assert(s[i as int] == (TrailV { edges: chain_of(arena@, path), end: at }));
            lemma_next_len(
                s,
                i as int + 1,
                continued(s[i as int], ids_at(st, at, dir), 0, reached, types, dir, st),
                types,
                dir,
                st,
            );
        }
        extend_trail(at, path, arena, &mut next, hop, storage)?;
        proof {
            assert(arena@.take(arena0.len() as int) =~= before.take(arena0.len() as int)) by {
                assert(arena@.take(before.len() as int) == before);
            }
        }
        i += 1;
    }
    Ok(next)
}

fn chain_values<S: StorageBackend>(
    arena: &Vec<(Option<u32>, EdgeId)>,
    cur: Option<u32>,
    storage: &S,
) -> (r: Vec<CypherValue>)
    requires
        storage.valid(),
        arena_ok(arena@),
        in_arena(arena@, cur),
    ensures
        value::vals_view(r@) == edges_with_ids(
            chain_of(arena@, cur),
            0,
            seq![],
            storage.store(),
        ),
    decreases
            match cur {
                Some(i) => i + 1,
                None => 0,
            },
{
    let ids = chain_ids(arena, cur);
    let mut out: Vec<CypherValue> = Vec::new();
    let mut i: usize = 0;
    proof {
        assert(value::vals_view(out@) =~= seq![]);
    }
    while i < ids.len()
        invariant
            storage.valid(),
            i <= ids.len(),
            edges_with_ids(ids@, 0, seq![], storage.store()) == edges_with_ids(
                ids@,
                i as int,
                value::vals_view(out@),
                storage.store(),
            ),
        decreases ids.len() - i,
    {
        if let Some(e) = storage.get_edge(ids[i]) {
            let v = CypherValue::Relationship(e);
            proof {
                assert(value::vals_view(out@.push(v)) =~= value::vals_view(out@).push(v@));
            }
            out.push(v);
        }
        i += 1;
    }
    out
}

/// The numbers on a path, the first step first.
pub fn chain_ids(arena: &Vec<(Option<u32>, EdgeId)>, cur: Option<u32>) -> (r: Vec<EdgeId>)
    requires
        arena_ok(arena@),
        in_arena(arena@, cur),
    ensures
        r@ == chain_of(arena@, cur),
{
    let mut back: Vec<EdgeId> = Vec::new();
    let mut at = cur;
    proof {
        assert(chain_of(arena@, cur) + back@.reverse() =~= chain_of(arena@, cur));
    }
    while at.is_some()
        invariant
            arena_ok(arena@),
            in_arena(arena@, at),
            chain_of(arena@, at) + back@.reverse() == chain_of(arena@, cur),
        decreases
                match at {
                    Some(i) => i + 1,
                    None => 0,
                },
    {
        let i = at.unwrap();
        let (parent, e) = arena[i as usize];
        let ghost b = back@;
        back.push(e);
        proof {
            assert(arena@[i as int].0 == parent);
            assert(chain_of(arena@, at) == chain_of(arena@, parent).push(e));
            assert(back@.reverse() =~= seq![e] + b.reverse());
            assert(chain_of(arena@, parent).push(e) + b.reverse() =~= chain_of(arena@, parent) + (
            seq![e] + b.reverse()));
        }
        at = parent;
    }
    let mut out: Vec<EdgeId> = Vec::new();
    let mut k: usize = back.len();
    while k > 0
        invariant
            k <= back.len(),
            out@ =~= back@.reverse().take(back@.len() - k),
        decreases k,
    {
        k -= 1;
        out.push(back[k]);
        proof {
            assert(back@.reverse()[back@.len() - 1 - k] == back@[k as int]);
        }
    }
    proof {
        assert(back@.reverse().take(back@.len() as int) =~= back@.reverse());
        assert(chain_of(arena@, None) + back@.reverse() =~= back@.reverse());
    }
    out
}

fn add_trail_rows<S: StorageBackend>(
    frontier: &Vec<(NodeId, Option<u32>)>,
    arena: &Vec<(Option<u32>, EdgeId)>,
    out: &mut Vec<Record>,
    rec: &Record,
    hop: &Hop,
    storage: &S,
)
    requires
        storage.valid(),
        arena_ok(arena@),
        frontier_ok(frontier@, arena@),
    ensures
        value::recs_view(final(out)@) == trail_rows(
            frontier_trails(frontier@, arena@),
            0,
            value::recs_view(old(out)@),
            rec@,
            hop@,
            storage.store(),
        ),
{
    let ghost s = frontier_trails(frontier@, arena@);
    let ghost first = value::recs_view(out@);
    let mut i: usize = 0;
    while i < frontier.len()
        invariant
            storage.valid(),
            arena_ok(arena@),
            frontier_ok(frontier@, arena@),
            s == frontier_trails(frontier@, arena@),
            first == value::recs_view(old(out)@),
            i <= frontier.len(),
            trail_rows(s, 0, first, rec@, hop@, storage.store()) == trail_rows(
                s,
                i as int,
                value::recs_view(out@),
                rec@,
                hop@,
                storage.store(),
            ),
        decreases frontier.len() - i,
    {
        let (to, path) = frontier[i];
        proof {
            assert(frontier@[i as int].1 == path);
        }
        if let Some(n) = storage.get_node(to) {
            let edges = chain_values(arena, path, storage);
            let row = make_hop_row(rec, hop, CypherValue::List(edges), n);
            proof {
                rows::lemma_recs_push(out@, row);
            }
            out.push(row);
        }
        i += 1;
    }
}

fn walk_from<S: StorageBackend>(
    rec: &Record,
    start: NodeId,
    hop: &Hop,
    min_hops: u64,
    max_hops: Option<u64>,
    storage: &S,
) -> (r: Result<Vec<Record>, CypherError>)
    requires
        storage.valid(),
    ensures
        recs_outcome(r) == var_length_row(
            rec@,
            start,
            hop@,
            min_hops,
            max_hops,
            storage.store(),
        ),
{
    let ghost st = storage.store();
    let ghost types = hop@.types;
    let ghost dir = hop@.direction;
    let limit = match max_hops {
        Some(m) => m,
        None => DEFAULT_MAX_HOPS,
    };
    let mut arena: Vec<(Option<u32>, EdgeId)> = Vec::new();
    let mut frontier: Vec<(NodeId, Option<u32>)> = Vec::new();
    frontier.push((start, None));
    let mut out: Vec<Record> = Vec::new();
    let mut depth: u64 = 0;
    proof {
        assert(frontier_trails(frontier@, arena@) =~= trails(start, 0, types, dir, st));
        assert(value::recs_view(out@) =~= seq![]);
    }
    while depth < limit && frontier.len() > 0
        invariant
            storage.valid(),
            st == storage.store(),
            types == hop@.types,
            dir == hop@.direction,
            limit == hop_limit(max_hops),
            depth <= limit,
            arena_ok(arena@),
            frontier_ok(frontier@, arena@),
            arena@.len() <= ARENA_CAPACITY,
            arena@.len() == trail_count(start, depth as nat, types, dir, st),
            frontier_trails(frontier@, arena@) == trails(start, depth as nat, types, dir, st),
            value::recs_view(out@) == rows_upto(rec@, start, hop@, min_hops, depth as nat, st),
        decreases limit - depth,
    {
        proof {
            lemma_count_grows(start, (depth + 1) as nat, limit as nat, types, dir, st);
        }
        let next = next_frontier(&frontier, &mut arena, hop, storage)?;
        depth += 1;
        proof {
            assert(frontier_trails(next@, arena@) == trails(start, depth as nat, types, dir, st));
        }
        if depth >= min_hops {
            add_trail_rows(&next, &arena, &mut out, rec, hop, storage);
        }
        frontier = next;
    }
    proof {
        assert(frontier_trails(frontier@, arena@).len() == frontier@.len());
        if frontier.len() == 0 {
            lemma_trails_end(rec@, start, hop@, min_hops, depth as nat, limit as nat, st);
        }
    }
    if max_hops.is_none() && frontier.len() > 0 {
        return Err(
            CypherError::RuntimeError(
                "Variable-length path traversal exceeded the default limit of 100 hops. Use an explicit upper bound, e.g. [*..100], to suppress this error.".to_owned(),
            ),
        );
    }
    Ok(out)
}

/// Follows chains of relationships from every row.
pub fn execute_var_length_expand<S: StorageBackend>(
    t: Table,
    hop: &Hop,
    min_hops: u64,
    max_hops: Option<u64>,
    storage: &S,
) -> (r: Result<Table, CypherError>)
    requires
        storage.valid(),
    ensures
        rows::table_outcome(r) == (match var_length_rows(
            t@.rows,
            0,
            seq![],
            hop@,
            min_hops,
            max_hops,
            storage.store(),
        ) {
            Err(x) => Err(x),
            Ok(out) => Ok(
                TableV {
                    cols: rows::with_col(rows::with_opt_col(t@.cols, hop@.rel), hop@.dst),
                    rows: out,
                },
            ),
        }),
{
    let mut cols = t.cols;
    add_opt_col(&mut cols, hop.rel);
    add_col(&mut cols, hop.dst.as_str());
    let mut out: Vec<Record> = Vec::new();
    let mut i: usize = 0;
    proof {
        assert(value::recs_view(out@) =~= seq![]);
    }
    while i < t.rows.len()
        invariant
            storage.valid(),
            i <= t.rows.len(),
            var_length_rows(
                value::recs_view(t.rows@),
                0,
                seq![],
                hop@,
                min_hops,
                max_hops,
                storage.store(),
            ) == var_length_rows(
                value::recs_view(t.rows@),
                i as int,
                value::recs_view(out@),
                hop@,
                min_hops,
                max_hops,
                storage.store(),
            ),
        decreases t.rows.len() - i,
    {
        if let Some(CypherValue::Node(n)) = t.rows[i].get(hop.src.as_str()) {
            let more = walk_from(&t.rows[i], n.id, hop, min_hops, max_hops, storage)?;
            append_rows(&mut out, more);
        }
        i += 1;
    }
    Ok(Table { cols, rows: out })
}

} // verus!
