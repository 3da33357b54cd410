//! The mathematical model of a stored graph, and what each storage operation
//! does to it.
use crate::assoc;
use crate::number;
use crate::refusal::RefusalV;
use crate::text;
use crate::value::{EdgeV, NodeV, PropV, PropsV};
use vstd::prelude::*;

verus! {

/// A stored graph. A node or a relationship stands at the position that its
/// identifier gives; what was deleted leaves a gap, and no identifier is ever
/// given twice.
pub struct StoreV {
    pub nodes: Seq<Option<NodeV>>,
    pub edges: Seq<Option<EdgeV>>,
    /// Label and property of each unique constraint.
    pub unique: Seq<(Seq<char>, Seq<char>)>,
    /// Label and property of each NOT NULL constraint.
    pub not_null: Seq<(Seq<char>, Seq<char>)>,
    /// Label and properties of each NODE KEY constraint.
    pub node_keys: Seq<(Seq<char>, Seq<Seq<char>>)>,
    /// Label, property and type of each PROPERTY TYPE constraint.
    pub prop_types: Seq<(Seq<char>, Seq<char>, Seq<char>)>,
}

/// A graph without anything in it.
pub open spec fn empty_store() -> StoreV {
    StoreV {
        nodes: Seq::empty(),
        edges: Seq::empty(),
        unique: Seq::empty(),
        not_null: Seq::empty(),
        node_keys: Seq::empty(),
        prop_types: Seq::empty(),
    }
}

/// Identifiers are positions, and both ends of every relationship exist.
pub open spec fn well_formed(st: StoreV) -> bool {
    &&& st.nodes.len() <= u64::MAX
    &&& st.edges.len() <= u64::MAX
    &&& forall|i: int|
        #![trigger st.nodes[i]]
        0 <= i < st.nodes.len() ==> (st.nodes[i] matches Some(n) ==> n.id == i)
    &&& forall|i: int|
        #![trigger st.edges[i]]
        0 <= i < st.edges.len() ==> (st.edges[i] matches Some(e) ==> e.id == i && node_at(st, e.src)
            is Some && node_at(st, e.dst) is Some)
}

// ---------------------------------------------------------------------------
// Reading
// ---------------------------------------------------------------------------

pub open spec fn node_at(st: StoreV, id: u64) -> Option<NodeV> {
    if (id as int) < st.nodes.len() {
        st.nodes[id as int]
    } else {
        None
    }
}

pub open spec fn edge_at(st: StoreV, id: u64) -> Option<EdgeV> {
    if (id as int) < st.edges.len() {
        st.edges[id as int]
    } else {
        None
    }
}

/// Those of the first `n` entries that are there and have a property, in order.
pub open spec fn chosen<T>(s: Seq<Option<T>>, p: spec_fn(T) -> bool, n: int) -> Seq<T>
    decreases n,
{
    if n <= 0 {
        seq![]
    } else {
        match s[n - 1] {
            Some(x) => if p(x) {
                chosen(s, p, n - 1).push(x)
            } else {
                chosen(s, p, n - 1)
            },
            None => chosen(s, p, n - 1),
        }
    }
}

/// The positions of those of the first `n` entries that are there and have a
/// property, in order.
pub open spec fn chosen_ids<T>(s: Seq<Option<T>>, p: spec_fn(T) -> bool, n: int) -> Seq<u64>
    decreases n,
{
    if n <= 0 {
        seq![]
    } else {
        match s[n - 1] {
            Some(x) => if p(x) {
                chosen_ids(s, p, n - 1).push((n - 1) as u64)
            } else {
                chosen_ids(s, p, n - 1)
            },
            None => chosen_ids(s, p, n - 1),
        }
    }
}

pub open spec fn node_count(st: StoreV) -> nat {
    chosen_ids(st.nodes, |n: NodeV| true, st.nodes.len() as int).len()
}

pub open spec fn edge_count(st: StoreV) -> nat {
    chosen_ids(st.edges, |e: EdgeV| true, st.edges.len() as int).len()
}

pub open spec fn all_node_ids(st: StoreV) -> Seq<u64> {
    chosen_ids(st.nodes, |n: NodeV| true, st.nodes.len() as int)
}

pub open spec fn all_edge_ids(st: StoreV) -> Seq<u64> {
    chosen_ids(st.edges, |e: EdgeV| true, st.edges.len() as int)
}

/// The relationships that start at a node, oldest first.
pub open spec fn outgoing(st: StoreV, id: u64) -> Seq<EdgeV> {
    chosen(st.edges, |e: EdgeV| e.src == id, st.edges.len() as int)
}

/// The relationships that end at a node, oldest first.
pub open spec fn incoming(st: StoreV, id: u64) -> Seq<EdgeV> {
    chosen(st.edges, |e: EdgeV| e.dst == id, st.edges.len() as int)
}

pub open spec fn outgoing_ids(st: StoreV, id: u64) -> Seq<u64> {
    chosen_ids(st.edges, |e: EdgeV| e.src == id, st.edges.len() as int)
}

pub open spec fn incoming_ids(st: StoreV, id: u64) -> Seq<u64> {
    chosen_ids(st.edges, |e: EdgeV| e.dst == id, st.edges.len() as int)
}

/// The relationships of a type from one node to another, oldest first.
pub open spec fn between(st: StoreV, src: u64, label: Seq<char>, dst: u64) -> Seq<EdgeV> {
    chosen(
        st.edges,
        |e: EdgeV| e.src == src && e.label == label && e.dst == dst,
        st.edges.len() as int,
    )
}

pub open spec fn has_label(n: NodeV, label: Option<Seq<char>>) -> bool {
    match label {
        Some(l) => text::has_text(n.labels, l),
        None => true,
    }
}

/// The nodes with a label, or all nodes, oldest first.
pub open spec fn labelled(st: StoreV, label: Option<Seq<char>>) -> Seq<NodeV> {
    chosen(st.nodes, |n: NodeV| has_label(n, label), st.nodes.len() as int)
}

/// Equality of property values. A floating-point value that is no number
/// equals nothing, and both zeros are equal.
pub open spec fn props_equal(a: PropV, b: PropV) -> bool {
    match (a, b) {
        (PropV::Str(x), PropV::Str(y)) => x == y,
        (PropV::Int(x), PropV::Int(y)) => x == y,
        (PropV::Float(x), PropV::Float(y)) => number::float_order(x, y) == Some(
            text::Order::Equal,
        ),
        (PropV::Bool(x), PropV::Bool(y)) => x == y,
        _ => false,
    }
}

/// Each required property is there with an equal value, from the `i`-th on.
pub open spec fn has_equal_props(props: PropsV, required: PropsV, i: int) -> bool
    decreases required.len() - i,
{
    if i < 0 || i >= required.len() {
        true
    } else {
        (match assoc::lookup(props, required[i].0) {
            Some(v) => props_equal(v, required[i].1),
            None => false,
        }) && has_equal_props(props, required, i + 1)
    }
}

/// The nodes with a label and values equal to the given property values.
pub open spec fn labelled_with(st: StoreV, label: Option<Seq<char>>, required: PropsV) -> Seq<NodeV> {
    chosen(
        st.nodes,
        |n: NodeV| has_label(n, label) && has_equal_props(n.properties, required, 0),
        st.nodes.len() as int,
    )
}

/// Each label of a list is there, from the `i`-th on.
pub open spec fn has_labels(labels: Seq<Seq<char>>, required: Seq<Seq<char>>, i: int) -> bool
    decreases required.len() - i,
{
    if i < 0 || i >= required.len() {
        true
    } else {
        text::has_text(labels, required[i]) && has_labels(labels, required, i + 1)
    }
}

/// The identifiers of the nodes with all labels and with values equal to the
/// given property values.
pub open spec fn found(st: StoreV, labels: Seq<Seq<char>>, required: PropsV) -> Seq<u64> {
    chosen_ids(
        st.nodes,
        |n: NodeV|
            has_labels(n.labels, labels, 0) && has_equal_props(n.properties, required, 0),
        st.nodes.len() as int,
    )
}

// ---------------------------------------------------------------------------
// Writing
// ---------------------------------------------------------------------------

pub open spec fn node_created(st: StoreV, labels: Seq<Seq<char>>, properties: PropsV) -> StoreV {
    StoreV {
        nodes: st.nodes.push(
            Some(NodeV { id: st.nodes.len() as u64, labels, properties }),
        ),
        ..st
    }
}

pub open spec fn edge_created(
    st: StoreV,
    label: Seq<char>,
    src: u64,
    dst: u64,
    properties: PropsV,
) -> StoreV {
    StoreV {
        edges: st.edges.push(
            Some(EdgeV { id: st.edges.len() as u64, label, src, dst, properties }),
        ),
        ..st
    }
}

/// Why a relationship between two nodes cannot be created.
pub open spec fn edge_refusal(st: StoreV, src: u64, dst: u64) -> Option<Seq<char>> {
    if node_at(st, src) is None {
        Some("Source node "@ + text::nat_text(src as nat) + " not found"@)
    } else if node_at(st, dst) is None {
        Some("Destination node "@ + text::nat_text(dst as nat) + " not found"@)
    } else {
        None
    }
}

/// The graph with the properties of a node replaced; unchanged where there is
/// no such node.
pub open spec fn node_props_set(st: StoreV, id: u64, properties: PropsV) -> StoreV {
    match node_at(st, id) {
        Some(n) => StoreV {
            nodes: st.nodes.update(id as int, Some(NodeV { properties, ..n })),
            ..st
        },
        None => st,
    }
}

pub open spec fn edge_props_set(st: StoreV, id: u64, properties: PropsV) -> StoreV {
    match edge_at(st, id) {
        Some(e) => StoreV {
            edges: st.edges.update(id as int, Some(EdgeV { properties, ..e })),
            ..st
        },
        None => st,
    }
}

pub open spec fn node_labels_set(st: StoreV, id: u64, labels: Seq<Seq<char>>) -> StoreV {
    match node_at(st, id) {
        Some(n) => StoreV {
            nodes: st.nodes.update(id as int, Some(NodeV { labels, ..n })),
            ..st
        },
        None => st,
    }
}

pub open spec fn node_props(st: StoreV, id: u64) -> PropsV {
    match node_at(st, id) {
        Some(n) => n.properties,
        None => PropsV::empty(),
    }
}

pub open spec fn edge_props(st: StoreV, id: u64) -> PropsV {
    match edge_at(st, id) {
        Some(e) => e.properties,
        None => PropsV::empty(),
    }
}

pub open spec fn node_labels(st: StoreV, id: u64) -> Seq<Seq<char>> {
    match node_at(st, id) {
        Some(n) => n.labels,
        None => seq![],
    }
}

pub open spec fn node_prop_set(st: StoreV, id: u64, k: Seq<char>, v: PropV) -> StoreV {
    node_props_set(st, id, assoc::bind(node_props(st, id), k, v))
}

pub open spec fn edge_prop_set(st: StoreV, id: u64, k: Seq<char>, v: PropV) -> StoreV {
    edge_props_set(st, id, assoc::bind(edge_props(st, id), k, v))
}

pub open spec fn node_props_merged(st: StoreV, id: u64, properties: PropsV) -> StoreV {
    node_props_set(st, id, assoc::bind_all(node_props(st, id), properties))
}

pub open spec fn edge_props_merged(st: StoreV, id: u64, properties: PropsV) -> StoreV {
    edge_props_set(st, id, assoc::bind_all(edge_props(st, id), properties))
}

pub open spec fn node_prop_removed(st: StoreV, id: u64, k: Seq<char>) -> StoreV {
    node_props_set(st, id, assoc::unbind(node_props(st, id), k))
}

pub open spec fn edge_prop_removed(st: StoreV, id: u64, k: Seq<char>) -> StoreV {
    edge_props_set(st, id, assoc::unbind(edge_props(st, id), k))
}

/// A list of labels with those of another list that it lacks, in order.
pub open spec fn labels_joined(labels: Seq<Seq<char>>, more: Seq<Seq<char>>, i: int) -> Seq<Seq<char>>
    decreases more.len() - i,
{
    if i < 0 || i >= more.len() {
        labels
    } else if text::has_text(labels, more[i]) {
        labels_joined(labels, more, i + 1)
    } else {
        labels_joined(labels.push(more[i]), more, i + 1)
    }
}

/// A list of labels without one label.
pub open spec fn label_dropped(labels: Seq<Seq<char>>, l: Seq<char>) -> Seq<Seq<char>>
    decreases labels.len(),
{
    if labels.len() == 0 {
        labels
    } else if labels.last() == l {
        label_dropped(labels.drop_last(), l)
    } else {
        label_dropped(labels.drop_last(), l).push(labels.last())
    }
}

/// A list of labels without those of another list.
pub open spec fn labels_dropped(labels: Seq<Seq<char>>, less: Seq<Seq<char>>, i: int) -> Seq<Seq<char>>
    decreases less.len() - i,
{
    if i < 0 || i >= less.len() {
        labels
    } else {
        labels_dropped(label_dropped(labels, less[i]), less, i + 1)
    }
}

pub open spec fn node_labels_added(st: StoreV, id: u64, labels: Seq<Seq<char>>) -> StoreV {
    node_labels_set(st, id, labels_joined(node_labels(st, id), labels, 0))
}

pub open spec fn node_labels_removed(st: StoreV, id: u64, labels: Seq<Seq<char>>) -> StoreV {
    node_labels_set(st, id, labels_dropped(node_labels(st, id), labels, 0))
}

/// A relationship has the node at one of its ends.
pub open spec fn touches(e: EdgeV, id: u64) -> bool {
    e.src == id || e.dst == id
}

/// The graph without the relationships at a node.
pub open spec fn detached(st: StoreV, id: u64) -> StoreV {
    StoreV {
        edges: Seq::new(
            st.edges.len(),
            |i: int|
                match st.edges[i] {
                    Some(e) => if touches(e, id) {
                        None
                    } else {
                        Some(e)
                    },
                    None => None,
                },
        ),
        ..st
    }
}

/// Some relationship has the node at one of its ends.
pub open spec fn has_relationships(st: StoreV, id: u64) -> bool {
    exists|i: int|
        0 <= i < st.edges.len() && (#[trigger] st.edges[i] matches Some(e) && touches(e, id))
}

/// Why a node cannot be deleted.
pub open spec fn delete_refusal(st: StoreV, id: u64, detach: bool) -> Option<Seq<char>> {
    if node_at(st, id) is None {
        Some("Node "@ + text::nat_text(id as nat) + " not found"@)
    } else if !detach && has_relationships(st, id) {
        Some(
            "Cannot delete node "@ + text::nat_text(id as nat)
                + " because it still has relationships. Use DETACH DELETE."@,
        )
    } else {
        None
    }
}

pub open spec fn node_deleted(st: StoreV, id: u64) -> StoreV {
    let d = detached(st, id);
    StoreV { nodes: d.nodes.update(id as int, None), ..d }
}

pub open spec fn edge_deleted(st: StoreV, id: u64) -> StoreV {
    StoreV { edges: st.edges.update(id as int, None), ..st }
}

pub open spec fn edge_missing(id: u64) -> Seq<char> {
    "Edge "@ + text::nat_text(id as nat) + " not found"@
}

// ---------------------------------------------------------------------------
// Constraints
// ---------------------------------------------------------------------------

/// Two property values that count as the same key: exactly equal, or both no
/// number.
pub open spec fn same_key(a: PropV, b: PropV) -> bool {
    a == b || match (a, b) {
        (PropV::Float(x), PropV::Float(y)) => number::is_nan(x) && number::is_nan(y),
        _ => false,
    }
}

pub open spec fn has_pair(s: Seq<(Seq<char>, Seq<char>)>, a: Seq<char>, b: Seq<char>) -> bool {
    exists|i: int| 0 <= i < s.len() && #[trigger] s[i] == (a, b)
}

/// A list of pairs with one more pair, if it is not there yet.
pub open spec fn pair_added(s: Seq<(Seq<char>, Seq<char>)>, a: Seq<char>, b: Seq<char>) -> Seq<
    (Seq<char>, Seq<char>),
> {
    if has_pair(s, a, b) {
        s
    } else {
        s.push((a, b))
    }
}

/// The first of the nodes before the `i`-th that has the same value of a
/// property.
pub open spec fn earlier_same(ns: Seq<NodeV>, p: Seq<char>, v: PropV, j: int, i: int) -> Option<int>
    decreases i - j,
{
    if j < 0 || j >= i || i > ns.len() {
        None
    } else {
        match assoc::lookup(ns[j].properties, p) {
            Some(w) => if same_key(w, v) {
                Some(j)
            } else {
                earlier_same(ns, p, v, j + 1, i)
            },
            None => earlier_same(ns, p, v, j + 1, i),
        }
    }
}

/// Why the nodes, from the `i`-th on, break a unique constraint.
pub open spec fn unique_conflict(ns: Seq<NodeV>, label: Seq<char>, p: Seq<char>, i: int) -> Option<
    RefusalV,
>
    decreases ns.len() - i,
{
    if i < 0 || i >= ns.len() {
        None
    } else {
        match assoc::lookup(ns[i].properties, p) {
            Some(v) => match earlier_same(ns, p, v, 0, i) {
                Some(j) => Some(
                    RefusalV::Shared {
                        first: ns[j].id,
                        second: ns[i].id,
                        label,
                        property: p,
                        value: v,
                    },
                ),
                None => unique_conflict(ns, label, p, i + 1),
            },
            None => unique_conflict(ns, label, p, i + 1),
        }
    }
}

/// Why a unique constraint cannot be added.
pub open spec fn unique_refusal(st: StoreV, label: Seq<char>, p: Seq<char>) -> Option<RefusalV> {
    unique_conflict(labelled(st, Some(label)), label, p, 0)
}

pub open spec fn unique_added(st: StoreV, label: Seq<char>, p: Seq<char>) -> StoreV {
    StoreV { unique: pair_added(st.unique, label, p), ..st }
}

/// A node holds the value that a unique constraint forbids to others.
pub open spec fn holds_value(n: NodeV, label: Seq<char>, p: Seq<char>, v: PropV) -> bool {
    text::has_text(n.labels, label) && assoc::lookup(n.properties, p) == Some(v) && props_equal(v, v)
}

/// Why a value would break a unique constraint.
pub open spec fn unique_breach(st: StoreV, label: Seq<char>, p: Seq<char>, v: PropV) -> Option<
    RefusalV,
> {
    if has_pair(st.unique, label, p) && exists|i: int|
        0 <= i < st.nodes.len() && (#[trigger] st.nodes[i] matches Some(n) && holds_value(
            n,
            label,
            p,
            v,
        )) {
        Some(RefusalV::Taken { label, property: p, value: v })
    } else {
        None
    }
}

/// Why the nodes, from the `i`-th on, break a NOT NULL constraint.
pub open spec fn not_null_conflict(ns: Seq<NodeV>, label: Seq<char>, p: Seq<char>, i: int) -> Option<
    Seq<char>,
>
    decreases ns.len() - i,
{
    if i < 0 || i >= ns.len() {
        None
    } else if assoc::lookup(ns[i].properties, p) is None {
        Some(
            "NOT NULL constraint violation: node "@ + text::nat_text(ns[i].id as nat)
                + " with label "@ + label + " is missing property "@ + p,
        )
    } else {
        not_null_conflict(ns, label, p, i + 1)
    }
}

pub open spec fn not_null_refusal(st: StoreV, label: Seq<char>, p: Seq<char>) -> Option<Seq<char>> {
    not_null_conflict(labelled(st, Some(label)), label, p, 0)
}

pub open spec fn not_null_added(st: StoreV, label: Seq<char>, p: Seq<char>) -> StoreV {
    StoreV { not_null: pair_added(st.not_null, label, p), ..st }
}

/// Why a new node would break the NOT NULL constraints on one label, from the
/// `j`-th constraint on.
pub open spec fn not_null_breach_of(
    cs: Seq<(Seq<char>, Seq<char>)>,
    label: Seq<char>,
    props: PropsV,
    j: int,
) -> Option<Seq<char>>
    decreases cs.len() - j,
{
    if j < 0 || j >= cs.len() {
        None
    } else if cs[j].0 == label && assoc::lookup(props, cs[j].1) is None {
        Some(
            "NOT NULL constraint violation on "@ + label + ":"@ + cs[j].1
                + ": property is required"@,
        )
    } else {
        not_null_breach_of(cs, label, props, j + 1)
    }
}

/// Why a new node would break a NOT NULL constraint, from the `i`-th label on.
pub open spec fn not_null_breach(
    cs: Seq<(Seq<char>, Seq<char>)>,
    labels: Seq<Seq<char>>,
    props: PropsV,
    i: int,
) -> Option<Seq<char>>
    decreases labels.len() - i,
{
    if i < 0 || i >= labels.len() {
        None
    } else {
        match not_null_breach_of(cs, labels[i], props, 0) {
            Some(m) => Some(m),
            None => not_null_breach(cs, labels, props, i + 1),
        }
    }
}

/// The first property of a list, from the `i`-th on, that is not there.
pub open spec fn missing_prop(props: PropsV, ps: Seq<Seq<char>>, i: int) -> Option<Seq<char>>
    decreases ps.len() - i,
{
    if i < 0 || i >= ps.len() {
        None
    } else if assoc::lookup(props, ps[i]) is None {
        Some(ps[i])
    } else {
        missing_prop(props, ps, i + 1)
    }
}

/// Two nodes have the same key, from the `i`-th property of the key on.
pub open spec fn same_node_key(a: PropsV, b: PropsV, ps: Seq<Seq<char>>, i: int) -> bool
    decreases ps.len() - i,
{
    if i < 0 || i >= ps.len() {
        true
    } else {
        (match (assoc::lookup(a, ps[i]), assoc::lookup(b, ps[i])) {
            (Some(x), Some(y)) => same_key(x, y),
            (None, None) => true,
            _ => false,
        }) && same_node_key(a, b, ps, i + 1)
    }
}

/// The first of the nodes before the `i`-th, from the `j`-th on, with the same
/// key as the `i`-th.
pub open spec fn earlier_same_key(ns: Seq<NodeV>, ps: Seq<Seq<char>>, j: int, i: int) -> Option<int>
    decreases i - j,
{
    if j < 0 || j >= i || i >= ns.len() {
        None
    } else if same_node_key(ns[j].properties, ns[i].properties, ps, 0) {
        Some(j)
    } else {
        earlier_same_key(ns, ps, j + 1, i)
    }
}

/// Why the nodes, from the `i`-th on, break a NODE KEY constraint.
pub open spec fn node_key_conflict(
    ns: Seq<NodeV>,
    label: Seq<char>,
    ps: Seq<Seq<char>>,
    i: int,
) -> Option<Seq<char>>
    decreases ns.len() - i,
{
    if i < 0 || i >= ns.len() {
        None
    } else {
        match missing_prop(ns[i].properties, ps, 0) {
            Some(p) => Some(
                "NODE KEY constraint violation: node "@ + text::nat_text(ns[i].id as nat)
                    + " with label "@ + label + " is missing property "@ + p,
            ),
            None => match earlier_same_key(ns, ps, 0, i) {
                Some(j) => Some(
                    "NODE KEY constraint violation: nodes "@ + text::nat_text(ns[j].id as nat)
                        + " and "@ + text::nat_text(ns[i].id as nat)
                        + " both have the same key for label "@ + label,
                ),
                None => node_key_conflict(ns, label, ps, i + 1),
            },
        }
    }
}

pub open spec fn node_key_refusal(st: StoreV, label: Seq<char>, ps: Seq<Seq<char>>) -> Option<
    Seq<char>,
> {
    node_key_conflict(labelled(st, Some(label)), label, ps, 0)
}

pub open spec fn node_key_added(st: StoreV, label: Seq<char>, ps: Seq<Seq<char>>) -> StoreV {
    StoreV { node_keys: st.node_keys.push((label, ps)), ..st }
}

/// One of the nodes, from the `i`-th on, has the key of the properties.
pub open spec fn key_taken(ns: Seq<NodeV>, props: PropsV, ps: Seq<Seq<char>>, i: int) -> bool
    decreases ns.len() - i,
{
    if i < 0 || i >= ns.len() {
        false
    } else {
        same_node_key(props, ns[i].properties, ps, 0) || key_taken(ns, props, ps, i + 1)
    }
}

/// The values of the properties of a key.
pub open spec fn key_values(props: PropsV, ps: Seq<Seq<char>>) -> Seq<Option<PropV>> {
    Seq::new(ps.len(), |i: int| assoc::lookup(props, ps[i]))
}

/// Why a new node would break the NODE KEY constraints on one label, from the
/// `j`-th constraint on.
pub open spec fn node_key_breach_of(st: StoreV, label: Seq<char>, props: PropsV, j: int) -> Option<
    RefusalV,
>
    decreases st.node_keys.len() - j,
{
    if j < 0 || j >= st.node_keys.len() {
        None
    } else if st.node_keys[j].0 != label {
        node_key_breach_of(st, label, props, j + 1)
    } else {
        match missing_prop(props, st.node_keys[j].1, 0) {
            Some(p) => Some(
                RefusalV::Plain(
                    "NODE KEY constraint violation on "@ + label + ":"@ + p
                        + ": property is required"@,
                ),
            ),
            None => if key_taken(labelled(st, Some(label)), props, st.node_keys[j].1, 0) {
                Some(
                    RefusalV::KeyTaken { label, values: key_values(props, st.node_keys[j].1) },
                )
            } else {
                node_key_breach_of(st, label, props, j + 1)
            },
        }
    }
}

/// Why a new node would break a NODE KEY constraint, from the `i`-th label on.
pub open spec fn node_key_breach(st: StoreV, labels: Seq<Seq<char>>, props: PropsV, i: int) -> Option<
    RefusalV,
>
    decreases labels.len() - i,
{
    if i < 0 || i >= labels.len() {
        None
    } else {
        match node_key_breach_of(st, labels[i], props, 0) {
            Some(m) => Some(m),
            None => node_key_breach(st, labels, props, i + 1),
        }
    }
}

/// A property value is of the named type.
pub open spec fn is_of_type(v: PropV, name: Seq<char>) -> bool {
    if name == "BOOLEAN"@ {
        v is Bool
    } else if name == "STRING"@ {
        v is Str
    } else if name == "INTEGER"@ {
        v is Int
    } else if name == "FLOAT"@ {
        v is Float
    } else {
        false
    }
}

/// Why the nodes, from the `i`-th on, break a PROPERTY TYPE constraint.
pub open spec fn type_conflict(
    ns: Seq<NodeV>,
    label: Seq<char>,
    p: Seq<char>,
    name: Seq<char>,
    i: int,
) -> Option<Seq<char>>
    decreases ns.len() - i,
{
    if i < 0 || i >= ns.len() {
        None
    } else if assoc::lookup(ns[i].properties, p) matches Some(v) && !is_of_type(v, name) {
        Some(
            "PROPERTY TYPE constraint violation: node "@ + text::nat_text(ns[i].id as nat)
                + " property "@ + label + ":"@ + p + " has wrong type (expected "@ + name + ")"@,
        )
    } else {
        type_conflict(ns, label, p, name, i + 1)
    }
}

pub open spec fn type_refusal(st: StoreV, label: Seq<char>, p: Seq<char>, name: Seq<char>) -> Option<
    Seq<char>,
> {
    type_conflict(labelled(st, Some(label)), label, p, name, 0)
}

/// The position, from the `i`-th on, of the type constraint on a property.
pub open spec fn type_slot(
    cs: Seq<(Seq<char>, Seq<char>, Seq<char>)>,
    label: Seq<char>,
    p: Seq<char>,
    i: int,
) -> Option<int>
    decreases cs.len() - i,
{
    if i < 0 || i >= cs.len() {
        None
    } else if cs[i].0 == label && cs[i].1 == p {
        Some(i)
    } else {
        type_slot(cs, label, p, i + 1)
    }
}

/// A property has one type constraint: a later one takes the place of an
/// earlier one.
pub open spec fn type_added(st: StoreV, label: Seq<char>, p: Seq<char>, name: Seq<char>) -> StoreV {
    StoreV {
        prop_types: match type_slot(st.prop_types, label, p, 0) {
            Some(i) => st.prop_types.update(i, (label, p, name)),
            None => st.prop_types.push((label, p, name)),
        },
        ..st
    }
}

/// Why a new node would break the PROPERTY TYPE constraints on one label, from
/// the `j`-th constraint on.
pub open spec fn type_breach_of(
    cs: Seq<(Seq<char>, Seq<char>, Seq<char>)>,
    label: Seq<char>,
    props: PropsV,
    j: int,
) -> Option<Seq<char>>
    decreases cs.len() - j,
{
    if j < 0 || j >= cs.len() {
        None
    } else if cs[j].0 == label && (assoc::lookup(props, cs[j].1) matches Some(v) && !is_of_type(
        v,
        cs[j].2,
    )) {
        Some(
            "PROPERTY TYPE constraint violation on "@ + label + ":"@ + cs[j].1
                + ": expected type "@ + cs[j].2,
        )
    } else {
        type_breach_of(cs, label, props, j + 1)
    }
}

/// Why a new node would break a PROPERTY TYPE constraint, from the `i`-th
/// label on.
pub open spec fn type_breach(
    cs: Seq<(Seq<char>, Seq<char>, Seq<char>)>,
    labels: Seq<Seq<char>>,
    props: PropsV,
    i: int,
) -> Option<Seq<char>>
    decreases labels.len() - i,
{
    if i < 0 || i >= labels.len() {
        None
    } else {
        match type_breach_of(cs, labels[i], props, 0) {
            Some(m) => Some(m),
            None => type_breach(cs, labels, props, i + 1),
        }
    }
}

// ---------------------------------------------------------------------------
// What every operation keeps
// ---------------------------------------------------------------------------

/// A graph without anything in it is well-formed.
pub proof fn lemma_empty_store()
    ensures
        well_formed(empty_store()),
{
}

/// A new node leaves the graph well-formed. It can be read back under an
/// identifier that no node had before, and every other node stays as it was.
pub proof fn lemma_node_created(st: StoreV, labels: Seq<Seq<char>>, properties: PropsV, id: u64)
    requires
        well_formed(st),
        st.nodes.len() < u64::MAX,
    ensures
        well_formed(node_created(st, labels, properties)),
        node_at(st, st.nodes.len() as u64) is None,
        node_at(node_created(st, labels, properties), st.nodes.len() as u64) == Some(
            NodeV { id: st.nodes.len() as u64, labels, properties },
        ),
        id != st.nodes.len() ==> node_at(node_created(st, labels, properties), id) == node_at(
            st,
            id,
        ),
{
    let after = node_created(st, labels, properties);
    assert forall|i: int|
        #![trigger after.nodes[i]]
        0 <= i < after.nodes.len() implies (after.nodes[i] matches Some(n) ==> n.id == i) by {
        if i < st.nodes.len() {
            assert(after.nodes[i] == st.nodes[i]);
        }
    }
    assert forall|i: int|
        #![trigger after.edges[i]]
        0 <= i < after.edges.len() implies (after.edges[i] matches Some(e) ==> e.id == i && node_at(
        after,
        e.src,
    ) is Some && node_at(after, e.dst) is Some) by {
        if let Some(e) = after.edges[i] {
            assert(st.edges[i] == Some(e));
            assert(node_at(st, e.src) is Some && node_at(st, e.dst) is Some);
        }
    }
}

proof fn lemma_chosen_before<T>(a: Seq<Option<T>>, b: Seq<Option<T>>, p: spec_fn(T) -> bool, n: int)
    requires
        0 <= n <= a.len(),
        n <= b.len(),
        forall|i: int| 0 <= i < n ==> a[i] == #[trigger] b[i],
    ensures
        chosen(a, p, n) == chosen(b, p, n),
        chosen_ids(a, p, n) == chosen_ids(b, p, n),
    decreases n,
{
    if n > 0 {
        assert(a[n - 1] == b[n - 1]);
        lemma_chosen_before(a, b, p, n - 1);
    }
}

/// A new node is found by each of its labels, behind the nodes that were found
/// before, and by no other label. There is one node more, and as many
/// relationships as before.
pub proof fn lemma_node_found(
    st: StoreV,
    labels: Seq<Seq<char>>,
    properties: PropsV,
    label: Option<Seq<char>>,
)
    ensures
        ({
            let after = node_created(st, labels, properties);
            let n = NodeV { id: st.nodes.len() as u64, labels, properties };
            &&& labelled(after, label) == (if has_label(n, label) {
                labelled(st, label).push(n)
            } else {
                labelled(st, label)
            })
            &&& node_count(after) == node_count(st) + 1
            &&& edge_count(after) == edge_count(st)
        }),
{
    let after = node_created(st, labels, properties);
    let n = st.nodes.len() as int;
    lemma_chosen_before(st.nodes, after.nodes, |x: NodeV| has_label(x, label), n);
    lemma_chosen_before(st.nodes, after.nodes, |x: NodeV| true, n);
}

/// A new relationship is found at both of its ends, behind those that were
/// found before, and at no other node. There is one relationship more, and as
/// many nodes as before.
pub proof fn lemma_edge_found(
    st: StoreV,
    label: Seq<char>,
    src: u64,
    dst: u64,
    properties: PropsV,
    id: u64,
)
    ensures
        ({
            let after = edge_created(st, label, src, dst, properties);
            let e = EdgeV { id: st.edges.len() as u64, label, src, dst, properties };
            &&& outgoing(after, id) == (if id == src {
                outgoing(st, id).push(e)
            } else {
                outgoing(st, id)
            })
            &&& incoming(after, id) == (if id == dst {
                incoming(st, id).push(e)
            } else {
                incoming(st, id)
            })
            &&& edge_count(after) == edge_count(st) + 1
            &&& node_count(after) == node_count(st)
        }),
{
    let after = edge_created(st, label, src, dst, properties);
    let n = st.edges.len() as int;
    lemma_chosen_before(st.edges, after.edges, |e: EdgeV| e.src == id, n);
    lemma_chosen_before(st.edges, after.edges, |e: EdgeV| e.dst == id, n);
    lemma_chosen_before(st.edges, after.edges, |e: EdgeV| true, n);
}

/// A new relationship between nodes that exist leaves the graph well-formed.
/// It can be read back under an identifier that no relationship had before,
/// and every other relationship stays as it was.
pub proof fn lemma_edge_created(
    st: StoreV,
    label: Seq<char>,
    src: u64,
    dst: u64,
    properties: PropsV,
    id: u64,
)
    requires
        well_formed(st),
        st.edges.len() < u64::MAX,
        edge_refusal(st, src, dst) is None,
    ensures
        well_formed(edge_created(st, label, src, dst, properties)),
        edge_at(st, st.edges.len() as u64) is None,
        edge_at(edge_created(st, label, src, dst, properties), st.edges.len() as u64) == Some(
            EdgeV { id: st.edges.len() as u64, label, src, dst, properties },
        ),
        id != st.edges.len() ==> edge_at(edge_created(st, label, src, dst, properties), id)
            == edge_at(st, id),
{
    let after = edge_created(st, label, src, dst, properties);
    assert forall|i: int|
        #![trigger after.nodes[i]]
        0 <= i < after.nodes.len() implies (after.nodes[i] matches Some(n) ==> n.id == i) by {
        assert(after.nodes[i] == st.nodes[i]);
    }
    assert forall|i: int|
        #![trigger after.edges[i]]
        0 <= i < after.edges.len() implies (after.edges[i] matches Some(e) ==> e.id == i && node_at(
        after,
        e.src,
    ) is Some && node_at(after, e.dst) is Some) by {
        if i < st.edges.len() {
            assert(after.edges[i] == st.edges[i]);
        }
    }
}

/// Other labels or properties for a node leave the graph well-formed.
pub proof fn lemma_node_replaced(st: StoreV, n: NodeV)
    requires
        well_formed(st),
        node_at(st, n.id) is Some,
    ensures
        well_formed((StoreV { nodes: st.nodes.update(n.id as int, Some(n)), ..st })),
{
    let after = StoreV { nodes: st.nodes.update(n.id as int, Some(n)), ..st };
    assert forall|i: int|
        #![trigger after.nodes[i]]
        0 <= i < after.nodes.len() implies (after.nodes[i] matches Some(m) ==> m.id == i) by {
        if i != n.id {
            assert(after.nodes[i] == st.nodes[i]);
        }
    }
    assert forall|i: int|
        #![trigger after.edges[i]]
        0 <= i < after.edges.len() implies (after.edges[i] matches Some(e) ==> e.id == i && node_at(
        after,
        e.src,
    ) is Some && node_at(after, e.dst) is Some) by {
        if let Some(e) = after.edges[i] {
            assert(st.edges[i] == Some(e));
            assert(node_at(st, e.src) is Some && node_at(st, e.dst) is Some);
        }
    }
}

/// Other properties for a relationship leave the graph well-formed.
pub proof fn lemma_edge_replaced(st: StoreV, e: EdgeV)
    requires
        well_formed(st),
        edge_at(st, e.id) matches Some(was) && was.src == e.src && was.dst == e.dst,
    ensures
        well_formed((StoreV { edges: st.edges.update(e.id as int, Some(e)), ..st })),
{
    let after = StoreV { edges: st.edges.update(e.id as int, Some(e)), ..st };
    assert forall|i: int|
        #![trigger after.nodes[i]]
        0 <= i < after.nodes.len() implies (after.nodes[i] matches Some(n) ==> n.id == i) by {
        assert(after.nodes[i] == st.nodes[i]);
    }
    assert forall|i: int|
        #![trigger after.edges[i]]
        0 <= i < after.edges.len() implies (after.edges[i] matches Some(x) ==> x.id == i && node_at(
        after,
        x.src,
    ) is Some && node_at(after, x.dst) is Some) by {
        assert(st.edges[i] == st.edges[i]);
    }
}

/// Every change of properties and labels leaves the graph well-formed.
pub proof fn lemma_changes_kept(st: StoreV, id: u64, k: Seq<char>, v: PropV, m: PropsV, ls: Seq<
    Seq<char>,
>)
    requires
        well_formed(st),
    ensures
        well_formed(node_prop_set(st, id, k, v)),
        well_formed(edge_prop_set(st, id, k, v)),
        well_formed(node_props_set(st, id, m)),
        well_formed(edge_props_set(st, id, m)),
        well_formed(node_props_merged(st, id, m)),
        well_formed(edge_props_merged(st, id, m)),
        well_formed(node_prop_removed(st, id, k)),
        well_formed(edge_prop_removed(st, id, k)),
        well_formed(node_labels_added(st, id, ls)),
        well_formed(node_labels_removed(st, id, ls)),
{
    if let Some(n) = node_at(st, id) {
        assert(n.id == id);
        let ps = n.properties;
        lemma_node_replaced(st, NodeV { properties: assoc::bind(ps, k, v), ..n });
        lemma_node_replaced(st, NodeV { properties: m, ..n });
        lemma_node_replaced(st, NodeV { properties: assoc::bind_all(ps, m), ..n });
        lemma_node_replaced(st, NodeV { properties: assoc::unbind(ps, k), ..n });
        lemma_node_replaced(st, NodeV { labels: labels_joined(n.labels, ls, 0), ..n });
        lemma_node_replaced(st, NodeV { labels: labels_dropped(n.labels, ls, 0), ..n });
    }
    if let Some(e) = edge_at(st, id) {
        assert(e.id == id);
        let ps = e.properties;
        lemma_edge_replaced(st, EdgeV { properties: assoc::bind(ps, k, v), ..e });
        lemma_edge_replaced(st, EdgeV { properties: m, ..e });
        lemma_edge_replaced(st, EdgeV { properties: assoc::bind_all(ps, m), ..e });
        lemma_edge_replaced(st, EdgeV { properties: assoc::unbind(ps, k), ..e });
    }
}

/// A property that is set on a node is read back, and the other properties and
/// the labels of the node stay as they were.
pub proof fn lemma_node_prop_read_back(st: StoreV, id: u64, k: Seq<char>, v: PropV, j: Seq<char>)
    requires
        node_at(st, id) is Some,
    ensures
        assoc::lookup(node_props(node_prop_set(st, id, k, v), id), k) == Some(v),
        j != k ==> assoc::lookup(node_props(node_prop_set(st, id, k, v), id), j) == assoc::lookup(
            node_props(st, id),
            j,
        ),
        node_labels(node_prop_set(st, id, k, v), id) == node_labels(st, id),
{
    assoc::lemma_lookup_bind(node_props(st, id), k, v, j);
}

/// A property that is removed from a node is gone, and the others stay.
pub proof fn lemma_node_prop_gone(st: StoreV, id: u64, k: Seq<char>, j: Seq<char>)
    ensures
        assoc::lookup(node_props(node_prop_removed(st, id, k), id), k) is None,
        j != k ==> assoc::lookup(node_props(node_prop_removed(st, id, k), id), j) == assoc::lookup(
            node_props(st, id),
            j,
        ),
{
    assoc::lemma_lookup_unbind(node_props(st, id), k, j);
}

/// Without a relationship the graph is well-formed. That relationship is
/// gone, and nothing else changes.
pub proof fn lemma_edge_deleted(st: StoreV, id: u64, other: u64)
    requires
        well_formed(st),
        edge_at(st, id) is Some,
    ensures
        well_formed(edge_deleted(st, id)),
        edge_at(edge_deleted(st, id), id) is None,
        other != id ==> edge_at(edge_deleted(st, id), other) == edge_at(st, other),
        edge_deleted(st, id).nodes == st.nodes,
{
    let after = edge_deleted(st, id);
    assert forall|i: int|
        #![trigger after.nodes[i]]
        0 <= i < after.nodes.len() implies (after.nodes[i] matches Some(n) ==> n.id == i) by {
        assert(after.nodes[i] == st.nodes[i]);
    }
    assert forall|i: int|
        #![trigger after.edges[i]]
        0 <= i < after.edges.len() implies (after.edges[i] matches Some(x) ==> x.id == i && node_at(
        after,
        x.src,
    ) is Some && node_at(after, x.dst) is Some) by {
        assert(st.edges[i] == st.edges[i]);
    }
}

/// Deleting a node leaves the graph well-formed. It takes away that node and
/// exactly the relationships at it; every other node and relationship stays
/// as it was.
pub proof fn lemma_node_deleted(st: StoreV, id: u64, other: u64)
    requires
        well_formed(st),
        node_at(st, id) is Some,
    ensures
        well_formed(node_deleted(st, id)),
        node_at(node_deleted(st, id), id) is None,
        other != id ==> node_at(node_deleted(st, id), other) == node_at(st, other),
        edge_at(node_deleted(st, id), other) == (match edge_at(st, other) {
            Some(e) => if touches(e, id) {
                None
            } else {
                Some(e)
            },
            None => None,
        }),
        !has_relationships(node_deleted(st, id), id),
{
    let after = node_deleted(st, id);
    assert forall|i: int|
        #![trigger after.nodes[i]]
        0 <= i < after.nodes.len() implies (after.nodes[i] matches Some(n) ==> n.id == i) by {
        if i != id {
            assert(after.nodes[i] == st.nodes[i]);
        }
    }
    assert forall|i: int|
        #![trigger after.edges[i]]
        0 <= i < after.edges.len() implies (after.edges[i] matches Some(e) ==> e.id == i && node_at(
        after,
        e.src,
    ) is Some && node_at(after, e.dst) is Some) by {
        if let Some(e) = after.edges[i] {
            assert(st.edges[i] == Some(e));
            assert(!touches(e, id));
            assert(node_at(st, e.src) is Some && node_at(st, e.dst) is Some);
        }
    }
}

/// A node without relationships can be deleted either way, and a node with
/// some can be deleted only with them.
pub proof fn lemma_delete_refused(st: StoreV, id: u64)
    requires
        node_at(st, id) is Some,
    ensures
        delete_refusal(st, id, true) is None,
        delete_refusal(st, id, false) is Some <==> has_relationships(st, id),
{
}

/// A relationship is refused exactly where one of its ends does not exist.
pub proof fn lemma_edge_refused(st: StoreV, src: u64, dst: u64)
    ensures
        edge_refusal(st, src, dst) is Some <==> node_at(st, src) is None || node_at(st, dst)
            is None,
{
}

} // verus!
