//! What `==` means on graph data and query values.
//!
//! Floating-point numbers compare as numbers: both zeros are equal, and what is
//! no number equals nothing. The entries of a map have no order.
use crate::assoc;
use crate::identity;
use crate::keying;
use crate::number::{self, order_floats};
use crate::store;
use crate::text::{self, same_text, same_texts};
use crate::value::{
    self, CypherValue, Edge, EdgeV, Node, NodeV, Path, PathV, PropertyMap, PropertyValue, PropsV,
    RecV, ValV, ValueMap,
};
use vstd::prelude::*;

verus! {

// ---------------------------------------------------------------------------
// Meaning
// ---------------------------------------------------------------------------

pub open spec fn same_float(x: u64, y: u64) -> bool {
    number::float_order(x, y) == Some(text::Order::Equal)
}

/// Two property maps have the same keys with equal values.
pub open spec fn same_props(a: PropsV, b: PropsV) -> bool {
    a.len() == b.len() && forall|i: int|
        0 <= i < a.len() ==> (assoc::lookup(b, (#[trigger] a[i]).0) matches Some(v)
            && store::props_equal(a[i].1, v))
}

pub open spec fn same_node(a: NodeV, b: NodeV) -> bool {
    a.id == b.id && a.labels == b.labels && same_props(a.properties, b.properties)
}

pub open spec fn same_edge(a: EdgeV, b: EdgeV) -> bool {
    &&& a.id == b.id
    &&& a.label == b.label
    &&& a.src == b.src
    &&& a.dst == b.dst
    &&& same_props(a.properties, b.properties)
}

pub open spec fn same_path(a: PathV, b: PathV) -> bool {
    &&& a.nodes.len() == b.nodes.len()
    &&& forall|i: int| 0 <= i < a.nodes.len() ==> same_node(#[trigger] a.nodes[i], b.nodes[i])
    &&& a.relationships.len() == b.relationships.len()
    &&& forall|i: int|
        0 <= i < a.relationships.len() ==> same_edge(
            #[trigger] a.relationships[i],
            b.relationships[i],
        )
}

pub open spec fn same_value(a: ValV, b: ValV) -> bool
    decreases a,
{
    match (a, b) {
        (ValV::Float(x), ValV::Float(y)) => same_float(x, y),
        (ValV::List(x), ValV::List(y)) => x.len() == y.len() && forall|i: int|
            0 <= i < x.len() ==> same_value(#[trigger] x[i], y[i]),
        (ValV::Dict(m), ValV::Dict(n)) => m.len() == n.len() && forall|i: int|
            0 <= i < m.len() ==> (assoc::lookup(n, (#[trigger] m[i]).0) matches Some(v)
                && same_value(m[i].1, v)),
        (ValV::Node(x), ValV::Node(y)) => same_node(x, y),
        (ValV::Relationship(x), ValV::Relationship(y)) => same_edge(x, y),
        (ValV::Path(x), ValV::Path(y)) => same_path(x, y),
        _ => a == b,
    }
}

/// Two maps have the same keys with equal values.
pub open spec fn same_record(a: RecV, b: RecV) -> bool {
    a.len() == b.len() && forall|i: int|
        0 <= i < a.len() ==> (assoc::lookup(b, (#[trigger] a[i]).0) matches Some(v) && same_value(
            a[i].1,
            v,
        ))
}

// ---------------------------------------------------------------------------
// What holds of equality
// ---------------------------------------------------------------------------

/// Two maps with the same entries are equal, in whatever order the entries
/// are, provided that each value equals itself.
pub proof fn lemma_order_of_entries(a: RecV, b: RecV)
    requires
        assoc::distinct_keys(b),
        a.len() == b.len(),
        forall|i: int| 0 <= i < a.len() ==> b.contains(#[trigger] a[i]),
        forall|i: int| 0 <= i < a.len() ==> same_value((#[trigger] a[i]).1, a[i].1),
    ensures
        same_record(a, b),
{
    assert forall|i: int| 0 <= i < a.len() implies (assoc::lookup(
        b,
        (#[trigger] a[i]).0,
    ) matches Some(v) && same_value(a[i].1, v)) by {
        assert(b.contains(a[i]));
        let j = choose|j: int| 0 <= j < b.len() && b[j] == a[i];
        assoc::lemma_position(b, a[i].0, 0);
        let p = assoc::position(b, a[i].0)->0;
        assert(b[p].0 == b[j].0);
    }
}

/// Equal values are alike, so that they have the same key in DISTINCT and in
/// groups.
pub proof fn lemma_equal_key(a: ValV, b: ValV)
    requires
        same_value(a, b),
        identity::plainly_keyed(a),
        identity::plainly_keyed(b),
    ensures
        identity::alike(a, b),
        keying::stable_key(a) == keying::stable_key(b),
{
    lemma_equal_alike(a, b);
    identity::lemma_alike_key(a, b);
}

proof fn lemma_equal_alike(a: ValV, b: ValV)
    requires
        same_value(a, b),
    ensures
        identity::alike(a, b),
    decreases a,
{
    match (a, b) {
        (ValV::Float(x), ValV::Float(y)) => {
            number::lemma_equal_floats(x, y);
        },
        (ValV::List(x), ValV::List(y)) => {
            assert forall|i: int| 0 <= i < x.len() implies identity::alike(
                #[trigger] x[i],
                y[i],
            ) by {
                lemma_equal_alike(x[i], y[i]);
            }
        },
        (ValV::Dict(m), ValV::Dict(n)) => {
            assert forall|i: int| 0 <= i < m.len() implies exists|j: int|
                0 <= j < n.len() && n[j].0 == (#[trigger] m[i]).0 && identity::alike(
                    m[i].1,
                    (#[trigger] n[j]).1,
                ) by {
                assoc::lemma_position(n, m[i].0, 0);
                let j = assoc::position(n, m[i].0)->0;
                lemma_equal_alike(m[i].1, n[j].1);
            }
        },
        (ValV::Path(x), ValV::Path(y)) => {
            assert(keying::node_ids(x.nodes) =~= keying::node_ids(y.nodes)) by {
                assert forall|i: int| 0 <= i < x.nodes.len() implies x.nodes[i].id
                    == y.nodes[i].id by {
                    assert(same_node(x.nodes[i], y.nodes[i]));
                }
            }
            assert(keying::edge_ids(x.relationships) =~= keying::edge_ids(y.relationships)) by {
                assert forall|i: int| 0 <= i < x.relationships.len() implies x.relationships[i].id
                    == y.relationships[i].id by {
                    assert(same_edge(x.relationships[i], y.relationships[i]));
                }
            }
        },
        _ => {},
    }
}

// ---------------------------------------------------------------------------
// Properties
// ---------------------------------------------------------------------------

fn eq_floats(x: u64, y: u64) -> (r: bool)
    ensures
        r == same_float(x, y),
{
    matches!(order_floats(x, y), Some(text::Order::Equal))
}

impl PartialEq for PropertyValue {
    fn eq(&self, other: &Self) -> (r: bool) {
        match (self, other) {
            (PropertyValue::String(x), PropertyValue::String(y)) => same_text(
                x.as_str(),
                y.as_str(),
            ),
            (PropertyValue::Int(x), PropertyValue::Int(y)) => *x == *y,
            (PropertyValue::Float(x), PropertyValue::Float(y)) => eq_floats(*x, *y),
            (PropertyValue::Bool(x), PropertyValue::Bool(y)) => *x == *y,
            _ => false,
        }
    }
}

impl vstd::std_specs::cmp::PartialEqSpecImpl for PropertyValue {
    open spec fn obeys_eq_spec() -> bool {
        true
    }

    open spec fn eq_spec(&self, other: &Self) -> bool {
        store::props_equal(self@, other@)
    }
}

impl PartialEq for PropertyMap {
    fn eq(&self, other: &Self) -> (r: bool) {
        if self.entries.len() != other.entries.len() {
            return false;
        }
        let mut i: usize = 0;
        while i < self.entries.len()
            invariant
                i <= self.entries.len(),
                self@.len() == other@.len(),
                forall|j: int|
                    0 <= j < i ==> (assoc::lookup(other@, (#[trigger] self@[j]).0) matches Some(v)
                        && store::props_equal(self@[j].1, v)),
            decreases self.entries.len() - i,
        {
            proof {
                assert(self@[i as int] == (self.entries@[i as int].0@, self.entries@[i as int].1@));
            }
            match other.get(self.entries[i].0.as_str()) {
                Some(v) => {
                    if !(self.entries[i].1 == *v) {
                        return false;
                    }
                },
                None => {
                    return false;
                },
            }
            i += 1;
        }
        true
    }
}

impl vstd::std_specs::cmp::PartialEqSpecImpl for PropertyMap {
    open spec fn obeys_eq_spec() -> bool {
        true
    }

    open spec fn eq_spec(&self, other: &Self) -> bool {
        same_props(self@, other@)
    }
}

// ---------------------------------------------------------------------------
// Nodes, relationships and paths
// ---------------------------------------------------------------------------

impl PartialEq for Node {
    fn eq(&self, other: &Self) -> (r: bool) {
        self.id == other.id && same_texts(&self.labels, &other.labels) && self.properties
            == other.properties
    }
}

impl vstd::std_specs::cmp::PartialEqSpecImpl for Node {
    open spec fn obeys_eq_spec() -> bool {
        true
    }

    open spec fn eq_spec(&self, other: &Self) -> bool {
        same_node(self@, other@)
    }
}

impl PartialEq for Edge {
    fn eq(&self, other: &Self) -> (r: bool) {
        self.id == other.id && same_text(self.label.as_str(), other.label.as_str()) && self.src
            == other.src && self.dst == other.dst && self.properties == other.properties
    }
}

impl vstd::std_specs::cmp::PartialEqSpecImpl for Edge {
    open spec fn obeys_eq_spec() -> bool {
        true
    }

    open spec fn eq_spec(&self, other: &Self) -> bool {
        same_edge(self@, other@)
    }
}

impl PartialEq for Path {
    fn eq(&self, other: &Self) -> (r: bool) {
        if self.nodes.len() != other.nodes.len() || self.relationships.len()
            != other.relationships.len() {
            return false;
        }
        let mut i: usize = 0;
        while i < self.nodes.len()
            invariant
                i <= self.nodes.len(),
                self.nodes.len() == other.nodes.len(),
                forall|j: int|
                    0 <= j < i ==> same_node(#[trigger] self@.nodes[j], other@.nodes[j]),
            decreases self.nodes.len() - i,
        {
            proof {
                assert(self@.nodes[i as int] == self.nodes@[i as int]@);
                assert(other@.nodes[i as int] == other.nodes@[i as int]@);
            }
            if !(self.nodes[i] == other.nodes[i]) {
                return false;
            }
            i += 1;
        }
        let mut k: usize = 0;
        while k < self.relationships.len()
            invariant
                k <= self.relationships.len(),
                self.relationships.len() == other.relationships.len(),
                forall|j: int|
                    0 <= j < k ==> same_edge(
                        #[trigger] self@.relationships[j],
                        other@.relationships[j],
                    ),
            decreases self.relationships.len() - k,
        {
            proof {
                assert(self@.relationships[k as int] == self.relationships@[k as int]@);
                assert(other@.relationships[k as int] == other.relationships@[k as int]@);
            }
            if !(self.relationships[k] == other.relationships[k]) {
                return false;
            }
            k += 1;
        }
        true
    }
}

impl vstd::std_specs::cmp::PartialEqSpecImpl for Path {
    open spec fn obeys_eq_spec() -> bool {
        true
    }

    open spec fn eq_spec(&self, other: &Self) -> bool {
        same_path(self@, other@)
    }
}

// ---------------------------------------------------------------------------
// Values
// ---------------------------------------------------------------------------

fn eq_lists(a: &Vec<CypherValue>, b: &Vec<CypherValue>) -> (r: bool)
    ensures
        r == same_value(ValV::List(value::vals_view(a@)), ValV::List(value::vals_view(b@))),
    decreases a,
{
    if a.len() != b.len() {
        return false;
    }
    let mut i: usize = 0;
    while i < a.len()
        invariant
            i <= a.len(),
            a.len() == b.len(),
            forall|j: int|
                0 <= j < i ==> same_value(
                    #[trigger] value::vals_view(a@)[j],
                    value::vals_view(b@)[j],
                ),
        decreases a.len() - i,
    {
        proof {
            assert(value::vals_view(a@)[i as int] == a@[i as int]@);
            assert(value::vals_view(b@)[i as int] == b@[i as int]@);
        }
        if !eq_values(&a[i], &b[i]) {
            return false;
        }
        i += 1;
    }
    true
}

fn eq_maps(a: &ValueMap, b: &ValueMap) -> (r: bool)
    ensures
        r == same_record(a@, b@),
    decreases a,
{
    if a.entries.len() != b.entries.len() {
        return false;
    }
    let mut i: usize = 0;
    while i < a.entries.len()
        invariant
            i <= a.entries.len(),
            a@.len() == b@.len(),
            forall|j: int|
                0 <= j < i ==> (assoc::lookup(b@, (#[trigger] a@[j]).0) matches Some(v)
                    && same_value(a@[j].1, v)),
        decreases a.entries.len() - i,
    {
        proof {
            assert(a@[i as int] == (a.entries@[i as int].0@, a.entries@[i as int].1@));
        }
        match b.get(a.entries[i].0.as_str()) {
            Some(v) => {
                if !eq_values(&a.entries[i].1, v) {
                    return false;
                }
            },
            None => {
                return false;
            },
        }
        i += 1;
    }
    true
}

fn eq_values(a: &CypherValue, b: &CypherValue) -> (r: bool)
    ensures
        r == same_value(a@, b@),
    decreases a,
{
    match (a, b) {
        (CypherValue::Null, CypherValue::Null) => true,
        (CypherValue::Boolean(x), CypherValue::Boolean(y)) => *x == *y,
        (CypherValue::Integer(x), CypherValue::Integer(y)) => *x == *y,
        (CypherValue::Float(x), CypherValue::Float(y)) => eq_floats(*x, *y),
        (CypherValue::String(x), CypherValue::String(y)) => same_text(x.as_str(), y.as_str()),
        (CypherValue::List(x), CypherValue::List(y)) => eq_lists(x, y),
        (CypherValue::MapValue(x), CypherValue::MapValue(y)) => eq_maps(x, y),
        (CypherValue::Node(x), CypherValue::Node(y)) => *x == *y,
        (CypherValue::Relationship(x), CypherValue::Relationship(y)) => *x == *y,
        (CypherValue::Path(x), CypherValue::Path(y)) => *x == *y,
        (CypherValue::Date(x), CypherValue::Date(y)) => *x == *y,
        (CypherValue::Timestamp(x, m), CypherValue::Timestamp(y, n)) => *x == *y && *m == *n,
        _ => false,
    }
}

impl PartialEq for CypherValue {
    fn eq(&self, other: &Self) -> (r: bool) {
        eq_values(self, other)
    }
}

impl vstd::std_specs::cmp::PartialEqSpecImpl for CypherValue {
    open spec fn obeys_eq_spec() -> bool {
        true
    }

    open spec fn eq_spec(&self, other: &Self) -> bool {
        same_value(self@, other@)
    }
}

impl PartialEq for ValueMap {
    fn eq(&self, other: &Self) -> (r: bool) {
        eq_maps(self, other)
    }
}

impl vstd::std_specs::cmp::PartialEqSpecImpl for ValueMap {
    open spec fn obeys_eq_spec() -> bool {
        true
    }

    open spec fn eq_spec(&self, other: &Self) -> bool {
        same_record(self@, other@)
    }
}

} // verus!
