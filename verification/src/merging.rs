//! What MERGE finds, and what it creates where it finds nothing.
use crate::assoc;
use crate::ast::{NodePatV, PatternV, SetV};
use crate::changes;
use crate::error::ErrV;
use crate::executor;
use crate::index;
use crate::merges;
use crate::plan::PlanV;
use crate::rows::TableV;
use crate::semantics::EnvV;
use crate::store::{self, StoreV};
use crate::text;
use crate::value::{NodeV, PropsV, RecV, ValV};
use crate::writes::{self, DoneV};
use vstd::prelude::*;

verus! {

/// A live node that has all labels, and a value equal to each of the properties.
pub open spec fn suits(n: Option<NodeV>, labels: Seq<Seq<char>>, props: PropsV) -> bool {
    n matches Some(x) && (forall|i: int|
        0 <= i < labels.len() ==> text::has_text(x.labels, #[trigger] labels[i])) && (forall|j: int|
        0 <= j < props.len() ==> (assoc::lookup(x.properties, (#[trigger] props[j]).0) matches Some(
            v,
        ) && store::props_equal(v, props[j].1)))
}

/// A step that merges a node.
pub open spec fn merge_of(
    input: Box<PlanV>,
    np: NodePatV,
    on_create: Option<Seq<SetV>>,
    on_match: Option<Seq<SetV>>,
    t: TableV,
    env: EnvV,
    st: StoreV,
) -> DoneV<TableV> {
    executor::step(
        PlanV::MergeOp { input, pattern: PatternV::Node(np), on_create, on_match },
        t,
        env,
        st,
    )
}

proof fn lemma_has_labels(labels: Seq<Seq<char>>, required: Seq<Seq<char>>, k: int)
    requires
        0 <= k <= required.len(),
    ensures
        store::has_labels(labels, required, k) <==> forall|i: int|
            k <= i < required.len() ==> text::has_text(labels, #[trigger] required[i]),
    decreases required.len() - k,
{
    if k < required.len() {
        lemma_has_labels(labels, required, k + 1);
    }
}

spec fn equal_at(props: PropsV, required: PropsV, j: int) -> bool {
    assoc::lookup(props, required[j].0) matches Some(v) && store::props_equal(v, required[j].1)
}

proof fn lemma_has_props(props: PropsV, required: PropsV, k: int)
    requires
        0 <= k <= required.len(),
    ensures
        store::has_equal_props(props, required, k) <==> forall|j: int|
            k <= j < required.len() ==> #[trigger] equal_at(props, required, j),
    decreases required.len() - k,
{
    if k < required.len() {
        lemma_has_props(props, required, k + 1);
        if store::has_equal_props(props, required, k) {
            assert forall|j: int| k <= j < required.len() implies #[trigger] equal_at(
                props,
                required,
                j,
            ) by {
                if j > k {
                    assert(k + 1 <= j);
                }
            }
        } else {
            if equal_at(props, required, k) {
                let j = choose|j: int|
                    k + 1 <= j < required.len() && !#[trigger] equal_at(props, required, j);
                assert(!equal_at(props, required, j));
            }
        }
    }
}

/// The nodes that MERGE finds are those that suit the pattern.
proof fn lemma_found(st: StoreV, labels: Seq<Seq<char>>, props: PropsV)
    requires
        st.nodes.len() <= u64::MAX,
    ensures
        index::ordered(store::found(st, labels, props)),
        forall|i: u64| #[trigger]
            store::found(st, labels, props).contains(i) <==> i < st.nodes.len() && suits(
                st.nodes[i as int],
                labels,
                props,
            ),
{
    let p = |n: NodeV|
        store::has_labels(n.labels, labels, 0) && store::has_equal_props(n.properties, props, 0);
    index::lemma_chosen_ids(st.nodes, p, st.nodes.len() as int);
    assert forall|i: u64| #[trigger]
        store::found(st, labels, props).contains(i) <==> i < st.nodes.len() && suits(
            st.nodes[i as int],
            labels,
            props,
        ) by {
        if i < st.nodes.len() {
            if let Some(x) = st.nodes[i as int] {
                lemma_has_labels(x.labels, labels, 0);
                lemma_has_props(x.properties, props, 0);
                if suits(st.nodes[i as int], labels, props) {
                    assert forall|j: int| 0 <= j < props.len() implies #[trigger] equal_at(
                        x.properties,
                        props,
                        j,
                    ) by {
                        assert(props[j] == props[j]);
                    }
                }
                if p(x) {
                    assert forall|j: int| 0 <= j < props.len() implies (assoc::lookup(
                        x.properties,
                        (#[trigger] props[j]).0,
                    ) matches Some(v) && store::props_equal(v, props[j].1)) by {
                        assert(equal_at(x.properties, props, j));
                    }
                }
                assert(p(x) == suits(st.nodes[i as int], labels, props));
            }
        }
    }
}

proof fn lemma_matched(
    rec: RecV,
    x: Seq<char>,
    ids: Seq<u64>,
    i: int,
    acc: Seq<RecV>,
    env: EnvV,
    st: StoreV,
)
    requires
        0 <= i <= ids.len(),
        acc.len() == i,
        forall|k: int| 0 <= k < ids.len() ==> store::node_at(st, #[trigger] ids[k]) is Some,
        forall|k: int|
            0 <= k < i ==> changes::only_variable(
                #[trigger] acc[k],
                rec,
                x,
                ValV::Node(st.nodes[ids[k] as int]->0),
            ),
    ensures
        ({
            let (r, after) = merges::matched_rows(rec, x, ids, i, acc, None, env, st);
            after == st && (r matches Ok(out) && out.len() == ids.len() && forall|k: int|
                0 <= k < ids.len() ==> changes::only_variable(
                    #[trigger] out[k],
                    rec,
                    x,
                    ValV::Node(st.nodes[ids[k] as int]->0),
                ))
        }),
    decreases ids.len() - i,
{
    if i < ids.len() {
        assert(store::node_at(st, ids[i]) is Some);
        let row = writes::with_node(rec, x, ids[i], st);
        lemma_bound(rec, x, ids[i], st);
        lemma_matched(rec, x, ids, i + 1, acc.push(row), env, st);
    }
}

proof fn lemma_bound(rec: RecV, x: Seq<char>, id: u64, st: StoreV)
    requires
        store::node_at(st, id) is Some,
    ensures
        changes::only_variable(
            writes::with_node(rec, x, id, st),
            rec,
            x,
            ValV::Node(st.nodes[id as int]->0),
        ),
{
    let v = ValV::Node(st.nodes[id as int]->0);
    let out = writes::with_node(rec, x, id, st);
    assert(out == assoc::bind(rec, x, v));
    assoc::lemma_lookup_bind(rec, x, v, x);
    assert forall|y: Seq<char>| y != x implies #[trigger] assoc::lookup(out, y) == assoc::lookup(
        rec,
        y,
    ) by {
        assoc::lemma_lookup_bind(rec, x, v, y);
    }
}

/// MERGE of a node gives a row for every node that suits the pattern and leaves
/// the graph as it is. Where none suits it, just one node is created, with the
/// labels and properties of the pattern.
pub proof fn lemma_merge_node(
    input: Box<PlanV>,
    t: TableV,
    np: NodePatV,
    x: Seq<char>,
    props: PropsV,
    env: EnvV,
    st: StoreV,
) -> (ids: Seq<u64>)
    requires
        t.rows.len() == 1,
        np.variable == Some(x),
        writes::resolved(np.properties, t.rows[0], env.at(0).at(0), st) == Ok::<PropsV, ErrV>(
            props,
        ),
        st.nodes.len() < u64::MAX,
    ensures
        forall|a: int, b: int| 0 <= a < b < ids.len() ==> #[trigger] ids[a] < #[trigger] ids[b],
        forall|i: u64| #[trigger]
            ids.contains(i) <==> i < st.nodes.len() && suits(st.nodes[i as int], np.labels, props),
        ({
            let (r, after) = merge_of(input, np, None, None, t, env, st);
            let n = st.nodes.len() as int;
            if ids.len() > 0 {
                after == st && (r matches Ok(out) && out.rows.len() == ids.len() && forall|k: int|
                    0 <= k < ids.len() ==> changes::only_variable(
                        #[trigger] out.rows[k],
                        t.rows[0],
                        x,
                        ValV::Node(st.nodes[ids[k] as int]->0),
                    ))
            } else {
                &&& after == StoreV { nodes: after.nodes, ..st }
                &&& after.nodes.len() == n + 1
                &&& forall|i: int| 0 <= i < n ==> #[trigger] after.nodes[i] == st.nodes[i]
                &&& after.nodes[n] == Some(
                    NodeV { id: n as u64, labels: np.labels, properties: props },
                )
                &&& r matches Ok(out) && out.rows.len() == 1 && changes::only_variable(
                    out.rows[0],
                    t.rows[0],
                    x,
                    ValV::Node(after.nodes[n]->0),
                )
            }
        }),
{
    reveal(executor::step);
    reveal_with_fuel(merges::merge_node_rows, 2);
    let rec = t.rows[0];
    let ids = store::found(st, np.labels, props);
    lemma_found(st, np.labels, props);
    assert(writes::base_rows(t.rows) == t.rows);
    let none: Seq<RecV> = seq![];
    if ids.len() > 0 {
        assert forall|k: int| 0 <= k < ids.len() implies store::node_at(st, #[trigger] ids[k])
            is Some by {
            assert(ids.contains(ids[k]));
        }
        lemma_matched(rec, x, ids, 0, none, env.at(0).at(1), st);
    } else {
        let created = store::node_created(st, np.labels, props);
        assert(store::node_at(created, st.nodes.len() as u64) is Some);
        lemma_bound(rec, x, st.nodes.len() as u64, created);
    }
    ids
}

/// ON CREATE is for a node that MERGE creates, and does to it what SET does; ON
/// MATCH does the same to a node that MERGE finds. The one that is not called
/// for changes nothing.
pub proof fn lemma_merge_set(
    input: Box<PlanV>,
    t: TableV,
    np: NodePatV,
    props: PropsV,
    on_create: Option<Seq<SetV>>,
    on_match: Option<Seq<SetV>>,
    env: EnvV,
    st: StoreV,
)
    requires
        t.rows.len() == 1,
        writes::resolved(np.properties, t.rows[0], env.at(0).at(0), st) == Ok::<PropsV, ErrV>(
            props,
        ),
        st.nodes.len() < u64::MAX,
    ensures
        ({
            let got = merge_of(input, np, on_create, on_match, t, env, st);
            let some = exists|i: int|
                0 <= i < st.nodes.len() && suits(#[trigger] st.nodes[i], np.labels, props);
            if some {
                &&& got == merge_of(input, np, None, on_match, t, env, st)
                &&& on_match matches Some(items) ==> {
                    let found = merge_of(input, np, None, None, t, env, st).0->Ok_0.rows;
                    let (row, after) = writes::set_items(
                        items,
                        0,
                        found[0],
                        env.at(0).at(1).at(0),
                        st,
                    );
                    found.len() == 1 ==> {
                        &&& got.1 == after
                        &&& row matches Ok(r) ==> (got.0 matches Ok(out) && out.rows == seq![r])
                        &&& row matches Err(e) ==> got.0 == Err::<TableV, ErrV>(e)
                    }
                }
            } else {
                &&& got == merge_of(input, np, on_create, None, t, env, st)
                &&& on_create matches Some(items) ==> {
                    let (made, created) = merge_of(input, np, None, None, t, env, st);
                    let (row, after) = writes::set_items(
                        items,
                        0,
                        made->Ok_0.rows[0],
                        env.at(0).at(1),
                        created,
                    );
                    &&& got.1 == after
                    &&& row matches Ok(r) ==> (got.0 matches Ok(out) && out.rows == seq![r])
                    &&& row matches Err(e) ==> got.0 == Err::<TableV, ErrV>(e)
                }
            }
        }),
{
    reveal(executor::step);
    reveal_with_fuel(merges::merge_node_rows, 2);
    let ids = store::found(st, np.labels, props);
    lemma_found(st, np.labels, props);
    assert(writes::base_rows(t.rows) == t.rows);
    let some = exists|i: int|
        0 <= i < st.nodes.len() && suits(#[trigger] st.nodes[i], np.labels, props);
    if some {
        let i = choose|i: int|
            0 <= i < st.nodes.len() && suits(#[trigger] st.nodes[i], np.labels, props);
        assert(ids.contains(i as u64));
        assert(ids.len() > 0);
        assert forall|k: int| 0 <= k < ids.len() implies store::node_at(st, #[trigger] ids[k])
            is Some by {
            assert(ids.contains(ids[k]));
        }
        let x = merges::merge_variable(np.variable);
        let none: Seq<RecV> = seq![];
        lemma_matched(t.rows[0], x, ids, 0, none, env.at(0).at(1), st);
        if ids.len() == 1 {
            assert(store::node_at(st, ids[0]) is Some);
            reveal_with_fuel(merges::matched_rows, 2);
            if let Some(items) = on_match {
                let row = writes::with_node(t.rows[0], x, ids[0], st);
                if let Ok(r) = writes::set_items(items, 0, row, env.at(0).at(1).at(0), st).0 {
                    assert(none.push(r) =~= seq![r]);
                }
            }
        }
    } else {
        if ids.len() > 0 {
            assert(ids.contains(ids[0]));
            assert(suits(st.nodes[ids[0] as int], np.labels, props));
        }
    }
}

} // verus!
