//! What constraints forbid, and when one can be added.
use crate::assoc;
use crate::ast::NodePatV;
use crate::index;
use crate::semantics::EnvV;
use crate::store::{self, StoreV};
use crate::text;
use crate::value::{NodeV, PropV, PropsV, RecV};
use crate::writes;
use vstd::prelude::*;

verus! {

// ---------------------------------------------------------------------------
// New nodes
// ---------------------------------------------------------------------------

/// A node with a label has the value of a property.
pub open spec fn taken_by(n: Option<NodeV>, label: Seq<char>, p: Seq<char>, v: PropV) -> bool {
    n matches Some(x) && text::has_text(x.labels, label) && assoc::lookup(x.properties, p) == Some(v)
        && store::props_equal(v, v)
}

/// A label has a unique constraint on a property whose value a node with the
/// label has already.
pub open spec fn breaks_unique(st: StoreV, label: Seq<char>, props: PropsV) -> bool {
    exists|c: int, j: int, i: int|
        #![trigger st.unique[c], props[j], st.nodes[i]]
        0 <= c < st.unique.len() && 0 <= j < props.len() && 0 <= i < st.nodes.len()
            && st.unique[c] == (label, props[j].0) && taken_by(
            st.nodes[i],
            label,
            props[j].0,
            props[j].1,
        )
}

/// A label has a NOT NULL constraint on a property that is missing.
pub open spec fn breaks_not_null(st: StoreV, label: Seq<char>, props: PropsV) -> bool {
    exists|c: int|
        0 <= c < st.not_null.len() && (#[trigger] st.not_null[c]).0 == label && assoc::lookup(
            props,
            st.not_null[c].1,
        ) is None
}

/// Two lists of properties agree on a key.
pub open spec fn agree(a: PropsV, b: PropsV, key: Seq<Seq<char>>) -> bool {
    forall|k: int|
        0 <= k < key.len() ==> match (
            assoc::lookup(a, #[trigger] key[k]),
            assoc::lookup(b, key[k]),
        ) {
            (Some(x), Some(y)) => store::same_key(x, y),
            (None, None) => true,
            _ => false,
        }
}

/// Every property of a key is there.
pub open spec fn complete(props: PropsV, key: Seq<Seq<char>>) -> bool {
    forall|k: int| 0 <= k < key.len() ==> assoc::lookup(props, #[trigger] key[k]) is Some
}

/// A live node with a label.
pub open spec fn bears(n: Option<NodeV>, label: Seq<char>) -> bool {
    n matches Some(x) && text::has_text(x.labels, label)
}

/// A label has a key that the properties lack, or that they share with a node
/// that has the label.
pub open spec fn breaks_key(st: StoreV, label: Seq<char>, props: PropsV) -> bool {
    exists|c: int|
        0 <= c < st.node_keys.len() && (#[trigger] st.node_keys[c]).0 == label && (!complete(
            props,
            st.node_keys[c].1,
        ) || exists|i: int|
            0 <= i < st.nodes.len() && bears(#[trigger] st.nodes[i], label) && agree(
                props,
                st.nodes[i]->0.properties,
                st.node_keys[c].1,
            ))
}

/// A label has a type constraint on a property whose value is of another type.
pub open spec fn breaks_type(st: StoreV, label: Seq<char>, props: PropsV) -> bool {
    exists|c: int|
        0 <= c < st.prop_types.len() && (#[trigger] st.prop_types[c]).0 == label && (assoc::lookup(
            props,
            st.prop_types[c].1,
        ) matches Some(v) && !store::is_of_type(v, st.prop_types[c].2))
}

/// A new node would break a constraint on one of its labels.
pub open spec fn breaks(st: StoreV, labels: Seq<Seq<char>>, props: PropsV) -> bool {
    exists|m: int|
        0 <= m < labels.len() && (breaks_unique(st, #[trigger] labels[m], props) || breaks_not_null(
            st,
            labels[m],
            props,
        ) || breaks_key(st, labels[m], props) || breaks_type(st, labels[m], props))
}

/// A node is created unless it would break a constraint. Where it would, the
/// query fails and the graph stays as it is.
pub proof fn lemma_created_or_refused(rec: RecV, np: NodePatV, env: EnvV, st: StoreV)
    requires
        st.nodes.len() <= u64::MAX,
        writes::resolved(np.properties, rec, env, st) is Ok,
    ensures
        ({
            let props = writes::resolved(np.properties, rec, env, st)->Ok_0;
            let (r, after) = writes::create_node_row(rec, np, env, st);
            if breaks(st, np.labels, props) {
                r is Err && after == st
            } else {
                r is Ok && after.nodes.len() == st.nodes.len() + 1
            }
        }),
{
    let props = writes::resolved(np.properties, rec, env, st)->Ok_0;
    lemma_unique(st, np.labels, props, 0);
    lemma_not_null(st, np.labels, props, 0);
    lemma_key(st, np.labels, props, 0);
    lemma_type(st, np.labels, props, 0);
}

proof fn lemma_unique_one(st: StoreV, label: Seq<char>, props: PropsV, j: int)
    requires
        0 <= j <= props.len(),
    ensures
        writes::unique_breach_of(st, label, props, j) is Some <==> exists|k: int|
            j <= k < props.len() && store::unique_breach(
                st,
                label,
                (#[trigger] props[k]).0,
                props[k].1,
            ) is Some,
    decreases props.len() - j,
{
    if j < props.len() {
        lemma_unique_one(st, label, props, j + 1);
        if store::unique_breach(st, label, props[j].0, props[j].1) is Some {
            assert(j <= j < props.len());
        }
    }
}

proof fn lemma_unique(st: StoreV, labels: Seq<Seq<char>>, props: PropsV, l: int)
    requires
        0 <= l <= labels.len(),
    ensures
        writes::unique_breaches(st, labels, l, props) is Some <==> exists|m: int|
            l <= m < labels.len() && breaks_unique(st, #[trigger] labels[m], props),
    decreases labels.len() - l,
{
    if l < labels.len() {
        lemma_unique(st, labels, props, l + 1);
        let label = labels[l];
        lemma_unique_one(st, label, props, 0);
        if breaks_unique(st, label, props) {
            let (c, j, i) = choose|c: int, j: int, i: int|
                #![trigger st.unique[c], props[j], st.nodes[i]]
                0 <= c < st.unique.len() && 0 <= j < props.len() && 0 <= i < st.nodes.len()
                    && st.unique[c] == (label, props[j].0) && taken_by(
                    st.nodes[i],
                    label,
                    props[j].0,
                    props[j].1,
                );
            assert(store::has_pair(st.unique, label, props[j].0));
            assert(store::holds_value(st.nodes[i]->0, label, props[j].0, props[j].1));
            assert(store::unique_breach(st, label, props[j].0, props[j].1) is Some);
            assert(l <= l < labels.len());
        }
        if writes::unique_breach_of(st, label, props, 0) is Some {
            let j = choose|k: int|
                0 <= k < props.len() && store::unique_breach(
                    st,
                    label,
                    (#[trigger] props[k]).0,
                    props[k].1,
                ) is Some;
            let c = choose|c: int|
                0 <= c < st.unique.len() && #[trigger] st.unique[c] == (label, props[j].0);
            let i = choose|i: int|
                0 <= i < st.nodes.len() && (#[trigger] st.nodes[i] matches Some(n)
                    && store::holds_value(n, label, props[j].0, props[j].1));
            assert(taken_by(st.nodes[i], label, props[j].0, props[j].1));
            assert(st.unique[c] == (label, props[j].0));
            assert(breaks_unique(st, labels[l], props));
        }
    }
}

proof fn lemma_not_null_one(st: StoreV, label: Seq<char>, props: PropsV, j: int)
    requires
        0 <= j <= st.not_null.len(),
    ensures
        store::not_null_breach_of(st.not_null, label, props, j) is Some <==> exists|c: int|
            j <= c < st.not_null.len() && (#[trigger] st.not_null[c]).0 == label && assoc::lookup(
                props,
                st.not_null[c].1,
            ) is None,
    decreases st.not_null.len() - j,
{
    if j < st.not_null.len() {
        lemma_not_null_one(st, label, props, j + 1);
    }
}

proof fn lemma_not_null(st: StoreV, labels: Seq<Seq<char>>, props: PropsV, l: int)
    requires
        0 <= l <= labels.len(),
    ensures
        store::not_null_breach(st.not_null, labels, props, l) is Some <==> exists|m: int|
            l <= m < labels.len() && breaks_not_null(st, #[trigger] labels[m], props),
    decreases labels.len() - l,
{
    if l < labels.len() {
        lemma_not_null(st, labels, props, l + 1);
        lemma_not_null_one(st, labels[l], props, 0);
        assert(store::not_null_breach_of(st.not_null, labels[l], props, 0) is Some
            == breaks_not_null(st, labels[l], props));
    }
}

proof fn lemma_missing(props: PropsV, key: Seq<Seq<char>>, k: int)
    requires
        0 <= k <= key.len(),
    ensures
        store::missing_prop(props, key, k) is None <==> forall|i: int|
            k <= i < key.len() ==> assoc::lookup(props, #[trigger] key[i]) is Some,
    decreases key.len() - k,
{
    if k < key.len() {
        lemma_missing(props, key, k + 1);
    }
}

proof fn lemma_agree(a: PropsV, b: PropsV, key: Seq<Seq<char>>, k: int)
    requires
        0 <= k <= key.len(),
    ensures
        store::same_node_key(a, b, key, k) <==> forall|i: int|
            k <= i < key.len() ==> match (
                assoc::lookup(a, #[trigger] key[i]),
                assoc::lookup(b, key[i]),
            ) {
                (Some(x), Some(y)) => store::same_key(x, y),
                (None, None) => true,
                _ => false,
            },
    decreases key.len() - k,
{
    if k < key.len() {
        lemma_agree(a, b, key, k + 1);
        if store::same_node_key(a, b, key, k) {
            assert forall|i: int| k <= i < key.len() implies match (
                assoc::lookup(a, #[trigger] key[i]),
                assoc::lookup(b, key[i]),
            ) {
                (Some(x), Some(y)) => store::same_key(x, y),
                (None, None) => true,
                _ => false,
            } by {
                if i > k {
                    assert(k + 1 <= i);
                }
            }
        }
    }
}

proof fn lemma_taken(ns: Seq<NodeV>, props: PropsV, key: Seq<Seq<char>>, i: int)
    requires
        0 <= i <= ns.len(),
    ensures
        store::key_taken(ns, props, key, i) <==> exists|k: int|
            i <= k < ns.len() && agree(props, (#[trigger] ns[k]).properties, key),
    decreases ns.len() - i,
{
    if i < ns.len() {
        lemma_taken(ns, props, key, i + 1);
        lemma_agree(props, ns[i].properties, key, 0);
        assert(store::same_node_key(props, ns[i].properties, key, 0) == agree(
            props,
            ns[i].properties,
            key,
        ));
    }
}

/// The nodes with a label are the live nodes that bear it, in order.
proof fn lemma_labelled(st: StoreV, label: Seq<char>) -> (at: Seq<u64>)
    requires
        st.nodes.len() <= u64::MAX,
    ensures
        at.len() == store::labelled(st, Some(label)).len(),
        forall|a: int, b: int| 0 <= a < b < at.len() ==> #[trigger] at[a] < #[trigger] at[b],
        forall|i: int|
            0 <= i < at.len() ==> (#[trigger] at[i]) < st.nodes.len() && st.nodes[at[i] as int]
                == Some(store::labelled(st, Some(label))[i]) && bears(
                st.nodes[at[i] as int],
                label,
            ),
        forall|i: int|
            0 <= i < st.nodes.len() && bears(#[trigger] st.nodes[i], label) ==> at.contains(
                i as u64,
            ),
{
    let p = |n: NodeV| store::has_label(n, Some(label));
    let n = st.nodes.len() as int;
    index::lemma_chosen_ids(st.nodes, p, n);
    index::lemma_chosen(st.nodes, p, n);
    let at = store::chosen_ids(st.nodes, p, n);
    assert forall|i: int| 0 <= i < at.len() implies (#[trigger] at[i]) < st.nodes.len()
        && st.nodes[at[i] as int] == Some(store::labelled(st, Some(label))[i]) && bears(
        st.nodes[at[i] as int],
        label,
    ) by {
        assert(at.contains(at[i]));
        assert(store::chosen(st.nodes, p, n)[i] == store::labelled(st, Some(label))[i]);
    }
    assert forall|i: int| 0 <= i < st.nodes.len() && bears(#[trigger] st.nodes[i], label) implies
        at.contains(i as u64) by {
        assert(p(st.nodes[i]->0));
        assert((i as u64) as int == i);
    }
    at
}

proof fn lemma_key_one(st: StoreV, label: Seq<char>, props: PropsV, j: int)
    requires
        st.nodes.len() <= u64::MAX,
        0 <= j <= st.node_keys.len(),
    ensures
        store::node_key_breach_of(st, label, props, j) is Some <==> exists|c: int|
            j <= c < st.node_keys.len() && (#[trigger] st.node_keys[c]).0 == label && (!complete(
                props,
                st.node_keys[c].1,
            ) || exists|i: int|
                0 <= i < st.nodes.len() && bears(#[trigger] st.nodes[i], label) && agree(
                    props,
                    st.nodes[i]->0.properties,
                    st.node_keys[c].1,
                )),
    decreases st.node_keys.len() - j,
{
    if j < st.node_keys.len() {
        lemma_key_one(st, label, props, j + 1);
        let key = st.node_keys[j].1;
        lemma_missing(props, key, 0);
        assert(store::missing_prop(props, key, 0) is None == complete(props, key));
        let ns = store::labelled(st, Some(label));
        lemma_taken(ns, props, key, 0);
        let at = lemma_labelled(st, label);
        if store::key_taken(ns, props, key, 0) {
            let k = choose|k: int|
                0 <= k < ns.len() && agree(props, (#[trigger] ns[k]).properties, key);
            assert(bears(st.nodes[at[k] as int], label));
        }
        if exists|i: int|
            0 <= i < st.nodes.len() && bears(#[trigger] st.nodes[i], label) && agree(
                props,
                st.nodes[i]->0.properties,
                key,
            ) {
            let i = choose|i: int|
                0 <= i < st.nodes.len() && bears(#[trigger] st.nodes[i], label) && agree(
                    props,
                    st.nodes[i]->0.properties,
                    key,
                );
            let k = choose|k: int| 0 <= k < at.len() && at[k] == i as u64;
            assert(st.nodes[at[k] as int] == Some(ns[k]));
        }
    }
}

proof fn lemma_key(st: StoreV, labels: Seq<Seq<char>>, props: PropsV, l: int)
    requires
        st.nodes.len() <= u64::MAX,
        0 <= l <= labels.len(),
    ensures
        store::node_key_breach(st, labels, props, l) is Some <==> exists|m: int|
            l <= m < labels.len() && breaks_key(st, #[trigger] labels[m], props),
    decreases labels.len() - l,
{
    if l < labels.len() {
        lemma_key(st, labels, props, l + 1);
        lemma_key_one(st, labels[l], props, 0);
        assert(store::node_key_breach_of(st, labels[l], props, 0) is Some == breaks_key(
            st,
            labels[l],
            props,
        ));
    }
}

proof fn lemma_type_one(st: StoreV, label: Seq<char>, props: PropsV, j: int)
    requires
        0 <= j <= st.prop_types.len(),
    ensures
        store::type_breach_of(st.prop_types, label, props, j) is Some <==> exists|c: int|
            j <= c < st.prop_types.len() && (#[trigger] st.prop_types[c]).0 == label && (
            assoc::lookup(props, st.prop_types[c].1) matches Some(v) && !store::is_of_type(
                v,
                st.prop_types[c].2,
            )),
    decreases st.prop_types.len() - j,
{
    if j < st.prop_types.len() {
        lemma_type_one(st, label, props, j + 1);
    }
}

proof fn lemma_type(st: StoreV, labels: Seq<Seq<char>>, props: PropsV, l: int)
    requires
        0 <= l <= labels.len(),
    ensures
        store::type_breach(st.prop_types, labels, props, l) is Some <==> exists|m: int|
            l <= m < labels.len() && breaks_type(st, #[trigger] labels[m], props),
    decreases labels.len() - l,
{
    if l < labels.len() {
        lemma_type(st, labels, props, l + 1);
        lemma_type_one(st, labels[l], props, 0);
        assert(store::type_breach_of(st.prop_types, labels[l], props, 0) is Some == breaks_type(
            st,
            labels[l],
            props,
        ));
    }
}

// ---------------------------------------------------------------------------
// New constraints
// ---------------------------------------------------------------------------

/// A unique constraint can be added where no two nodes with the label have the
/// same value of the property.
pub proof fn lemma_unique_added(st: StoreV, label: Seq<char>, p: Seq<char>)
    requires
        st.nodes.len() <= u64::MAX,
    ensures
        store::unique_refusal(st, label, p) is None <==> forall|a: int, b: int|
            0 <= a < b < st.nodes.len() && bears(#[trigger] st.nodes[a], label) && bears(
                #[trigger] st.nodes[b],
                label,
            ) ==> match (
                assoc::lookup(st.nodes[a]->0.properties, p),
                assoc::lookup(st.nodes[b]->0.properties, p),
            ) {
                (Some(x), Some(y)) => !store::same_key(x, y),
                _ => true,
            },
{
    let ns = store::labelled(st, Some(label));
    let at = lemma_labelled(st, label);
    lemma_shared(ns, label, p, 0);
    if store::unique_refusal(st, label, p) is None {
        assert forall|a: int, b: int|
            0 <= a < b < st.nodes.len() && bears(#[trigger] st.nodes[a], label) && bears(
                #[trigger] st.nodes[b],
                label,
            ) implies match (
            assoc::lookup(st.nodes[a]->0.properties, p),
            assoc::lookup(st.nodes[b]->0.properties, p),
        ) {
            (Some(x), Some(y)) => !store::same_key(x, y),
            _ => true,
        } by {
            let j = choose|j: int| 0 <= j < at.len() && at[j] == a as u64;
            let i = choose|i: int| 0 <= i < at.len() && at[i] == b as u64;
            assert(st.nodes[at[j] as int] == Some(ns[j]) && st.nodes[at[i] as int] == Some(ns[i]));
            if i <= j {
                if i < j {
                    assert(at[i] < at[j]);
                }
            }
            assert(!shared(ns, p, j, i));
        }
    } else {
        let (j, i) = choose|j: int, i: int|
            0 <= j < i && 0 <= i < ns.len() && #[trigger] shared(ns, p, j, i);
        assert(at[j] < at[i]);
        assert(bears(st.nodes[at[j] as int], label) && bears(st.nodes[at[i] as int], label));
    }
}

/// Two nodes of a list have the same value of a property.
spec fn shared(ns: Seq<NodeV>, p: Seq<char>, j: int, i: int) -> bool {
    match (assoc::lookup(ns[j].properties, p), assoc::lookup(ns[i].properties, p)) {
        (Some(x), Some(y)) => store::same_key(x, y),
        _ => false,
    }
}

proof fn lemma_earlier(ns: Seq<NodeV>, p: Seq<char>, v: PropV, j: int, i: int)
    requires
        0 <= j <= i < ns.len(),
        assoc::lookup(ns[i].properties, p) == Some(v),
    ensures
        store::earlier_same(ns, p, v, j, i) is Some <==> exists|k: int|
            j <= k < i && #[trigger] shared(ns, p, k, i),
    decreases i - j,
{
    if j < i {
        lemma_earlier(ns, p, v, j + 1, i);
        if shared(ns, p, j, i) {
            assert(j <= j < i);
        }
    }
}

proof fn lemma_shared(ns: Seq<NodeV>, label: Seq<char>, p: Seq<char>, i: int)
    requires
        0 <= i <= ns.len(),
    ensures
        store::unique_conflict(ns, label, p, i) is Some <==> exists|k: int, m: int|
            0 <= k < m && i <= m < ns.len() && #[trigger] shared(ns, p, k, m),
    decreases ns.len() - i,
{
    if i < ns.len() {
        lemma_shared(ns, label, p, i + 1);
        match assoc::lookup(ns[i].properties, p) {
            Some(v) => {
                lemma_earlier(ns, p, v, 0, i);
            },
            None => {
                assert forall|k: int| 0 <= k < i implies !#[trigger] shared(ns, p, k, i) by {}
            },
        }
    }
}

/// A NOT NULL constraint can be added where every node with the label has the
/// property.
pub proof fn lemma_not_null_added(st: StoreV, label: Seq<char>, p: Seq<char>)
    requires
        st.nodes.len() <= u64::MAX,
    ensures
        store::not_null_refusal(st, label, p) is None <==> forall|i: int|
            0 <= i < st.nodes.len() && bears(#[trigger] st.nodes[i], label) ==> assoc::lookup(
                st.nodes[i]->0.properties,
                p,
            ) is Some,
{
    let ns = store::labelled(st, Some(label));
    let at = lemma_labelled(st, label);
    lemma_lacking(ns, label, p, 0);
    if store::not_null_refusal(st, label, p) is None {
        assert forall|i: int|
            0 <= i < st.nodes.len() && bears(#[trigger] st.nodes[i], label) implies assoc::lookup(
            st.nodes[i]->0.properties,
            p,
        ) is Some by {
            let k = choose|k: int| 0 <= k < at.len() && at[k] == i as u64;
            assert(st.nodes[at[k] as int] == Some(ns[k]));
        }
    } else {
        let k = choose|k: int|
            0 <= k < ns.len() && assoc::lookup((#[trigger] ns[k]).properties, p) is None;
        assert(bears(st.nodes[at[k] as int], label));
    }
}

proof fn lemma_lacking(ns: Seq<NodeV>, label: Seq<char>, p: Seq<char>, i: int)
    requires
        0 <= i <= ns.len(),
    ensures
        store::not_null_conflict(ns, label, p, i) is Some <==> exists|k: int|
            i <= k < ns.len() && assoc::lookup((#[trigger] ns[k]).properties, p) is None,
    decreases ns.len() - i,
{
    if i < ns.len() {
        lemma_lacking(ns, label, p, i + 1);
    }
}

/// A type constraint can be added where every node with the label that has the
/// property has a value of the type.
pub proof fn lemma_type_added(st: StoreV, label: Seq<char>, p: Seq<char>, name: Seq<char>)
    requires
        st.nodes.len() <= u64::MAX,
    ensures
        store::type_refusal(st, label, p, name) is None <==> forall|i: int|
            0 <= i < st.nodes.len() && bears(#[trigger] st.nodes[i], label) ==> match assoc::lookup(
                st.nodes[i]->0.properties,
                p,
            ) {
                Some(v) => store::is_of_type(v, name),
                None => true,
            },
{
    let ns = store::labelled(st, Some(label));
    let at = lemma_labelled(st, label);
    lemma_mistyped(ns, label, p, name, 0);
    if store::type_refusal(st, label, p, name) is None {
        assert forall|i: int|
            0 <= i < st.nodes.len() && bears(#[trigger] st.nodes[i], label) implies (
        match assoc::lookup(st.nodes[i]->0.properties, p) {
            Some(v) => store::is_of_type(v, name),
            None => true,
        }) by {
            let k = choose|k: int| 0 <= k < at.len() && at[k] == i as u64;
            assert(st.nodes[at[k] as int] == Some(ns[k]));
            assert(!mistyped(ns[k], p, name));
        }
    } else {
        let k = choose|k: int| 0 <= k < ns.len() && mistyped(#[trigger] ns[k], p, name);
        assert(bears(st.nodes[at[k] as int], label));
    }
}

spec fn mistyped(n: NodeV, p: Seq<char>, name: Seq<char>) -> bool {
    assoc::lookup(n.properties, p) matches Some(v) && !store::is_of_type(v, name)
}

proof fn lemma_mistyped(ns: Seq<NodeV>, label: Seq<char>, p: Seq<char>, name: Seq<char>, i: int)
    requires
        0 <= i <= ns.len(),
    ensures
        store::type_conflict(ns, label, p, name, i) is Some <==> exists|k: int|
            i <= k < ns.len() && mistyped(#[trigger] ns[k], p, name),
    decreases ns.len() - i,
{
    if i < ns.len() {
        lemma_mistyped(ns, label, p, name, i + 1);
    }
}

} // verus!
