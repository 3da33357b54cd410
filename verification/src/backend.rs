//! The interface between queries and the storage that holds the graph.
use crate::refusal::{Refusal, RefusalV};
use crate::store::{self, StoreV};
use crate::text;
use crate::value::{self, Edge, EdgeId, Node, NodeId, PropertyMap, PropertyValue};
use vstd::prelude::*;

verus! {

/// The view of an optional node.
pub open spec fn opt_node(o: Option<Node>) -> Option<value::NodeV> {
    match o {
        Some(n) => Some(n@),
        None => None,
    }
}

/// The view of an optional relationship.
pub open spec fn opt_edge(o: Option<Edge>) -> Option<value::EdgeV> {
    match o {
        Some(e) => Some(e@),
        None => None,
    }
}

/// The view of an optional borrowed text.
pub open spec fn opt_str(o: Option<&str>) -> Option<Seq<char>> {
    match o {
        Some(s) => Some(s@),
        None => None,
    }
}

/// The view of pairs of texts.
pub open spec fn text_pairs(s: Seq<(String, String)>) -> Seq<(Seq<char>, Seq<char>)> {
    Seq::new(s.len(), |i: int| (s[i].0@, s[i].1@))
}

/// The result of an operation that succeeds, and changes the graph to `after`,
/// unless there is a reason against it.
pub open spec fn done_or_refused(
    r: Result<(), String>,
    reason: Option<Seq<char>>,
    before: StoreV,
    now: StoreV,
    after: StoreV,
) -> bool {
    match reason {
        Some(m) => now == before && (r matches Err(e) && e@ == m),
        None => now == after && r is Ok,
    }
}

/// The same, with the reason as data.
pub open spec fn done_or_denied(
    r: Result<(), Refusal>,
    reason: Option<RefusalV>,
    before: StoreV,
    now: StoreV,
    after: StoreV,
) -> bool {
    match reason {
        Some(m) => now == before && (r matches Err(e) && e@ == m),
        None => now == after && r is Ok,
    }
}

/// The result of a check that passes unless there is a reason against it.
pub open spec fn passed_or_refused(r: Result<(), String>, reason: Option<Seq<char>>) -> bool {
    match reason {
        Some(m) => r matches Err(e) && e@ == m,
        None => r is Ok,
    }
}

/// The same, with the reason as data.
pub open spec fn passed_or_denied(r: Result<(), Refusal>, reason: Option<RefusalV>) -> bool {
    match reason {
        Some(m) => r matches Err(e) && e@ == m,
        None => r is Ok,
    }
}

/// A storage of graphs. All read methods return owned values, so that a
/// storage can be in memory or on disk.
pub trait StorageBackend {
    /// The graph that is stored.
    open spec fn store(&self) -> StoreV {
        arbitrary()
    }

    /// The storage is in order.
    open spec fn valid(&self) -> bool {
        arbitrary()
    }

    /// A storage that is in order holds a well-formed graph: identifiers are
    /// positions, and both ends of every relationship are there.
    proof fn lemma_valid(&self)
        requires
            self.valid(),
        ensures
            store::well_formed(self.store()),
    ;

    fn get_node(&self, id: NodeId) -> (r: Option<Node>)
        requires
            self.valid(),
        ensures
            opt_node(r) == store::node_at(self.store(), id),
    ;

    fn get_edge(&self, id: EdgeId) -> (r: Option<Edge>)
        requires
            self.valid(),
        ensures
            opt_edge(r) == store::edge_at(self.store(), id),
    ;

    fn node_count(&self) -> (r: usize)
        requires
            self.valid(),
        ensures
            r == store::node_count(self.store()),
    ;

    fn edge_count(&self) -> (r: usize)
        requires
            self.valid(),
        ensures
            r == store::edge_count(self.store()),
    ;

    fn outgoing_edges(&self, node_id: NodeId) -> (r: Vec<Edge>)
        requires
            self.valid(),
        ensures
            value::edges_view(r@) == store::outgoing(self.store(), node_id),
    ;

    fn incoming_edges(&self, node_id: NodeId) -> (r: Vec<Edge>)
        requires
            self.valid(),
        ensures
            value::edges_view(r@) == store::incoming(self.store(), node_id),
    ;

    fn outgoing_edge_ids(&self, node_id: NodeId) -> (r: Vec<EdgeId>)
        requires
            self.valid(),
        ensures
            r@ == store::outgoing_ids(self.store(), node_id),
    ;

    fn incoming_edge_ids(&self, node_id: NodeId) -> (r: Vec<EdgeId>)
        requires
            self.valid(),
        ensures
            r@ == store::incoming_ids(self.store(), node_id),
    ;

    /// The relationships of a type from one node to another.
    fn edges_between(&self, src: NodeId, rel_type: &str, dst: NodeId) -> (r: Vec<Edge>)
        requires
            self.valid(),
        ensures
            value::edges_view(r@) == store::between(self.store(), src, rel_type@, dst),
    ;

    /// All nodes, or those with a label.
    fn match_nodes(&self, label: Option<&str>) -> (r: Vec<Node>)
        requires
            self.valid(),
        ensures
            value::nodes_view(r@) == store::labelled(self.store(), opt_str(label)),
    ;

    /// All nodes with a label, if one is given, and all the properties.
    fn match_nodes_with_props(&self, label: Option<&str>, props: &PropertyMap) -> (r: Vec<Node>)
        requires
            self.valid(),
        ensures
            value::nodes_view(r@) == store::labelled_with(self.store(), opt_str(label), props@),
    ;

    /// The first node with all labels and properties.
    fn find_node(&self, labels: &Vec<String>, properties: &PropertyMap) -> (r: Option<NodeId>)
        requires
            self.valid(),
        ensures
            r == ({
                let ids = store::found(self.store(), text::texts_view(labels@), properties@);
                if ids.len() > 0 {
                    Some(ids[0])
                } else {
                    None
                }
            }),
    ;

    /// All nodes with all labels and properties.
    fn find_nodes(&self, labels: &Vec<String>, properties: &PropertyMap) -> (r: Vec<NodeId>)
        requires
            self.valid(),
        ensures
            r@ == store::found(self.store(), text::texts_view(labels@), properties@),
    ;

    fn all_node_ids(&self) -> (r: Vec<NodeId>)
        requires
            self.valid(),
        ensures
            r@ == store::all_node_ids(self.store()),
    ;

    fn all_edge_ids(&self) -> (r: Vec<EdgeId>)
        requires
            self.valid(),
        ensures
            r@ == store::all_edge_ids(self.store()),
    ;

    fn create_node(&mut self, labels: Vec<String>, properties: PropertyMap) -> (id: NodeId)
        requires
            old(self).valid(),
        ensures
            final(self).valid(),
            id == old(self).store().nodes.len(),
            final(self).store() == store::node_created(
                old(self).store(),
                text::texts_view(labels@),
                properties@,
            ),
    ;

    fn create_edge(
        &mut self,
        label: String,
        src: NodeId,
        dst: NodeId,
        properties: PropertyMap,
    ) -> (r: Result<EdgeId, String>)
        requires
            old(self).valid(),
        ensures
            final(self).valid(),
            match store::edge_refusal(old(self).store(), src, dst) {
                Some(m) => final(self).store() == old(self).store() && (r matches Err(e) && e@ == m),
                None => r == Ok::<EdgeId, String>(old(self).store().edges.len() as u64)
                    && final(self).store() == store::edge_created(
                    old(self).store(),
                    label@,
                    src,
                    dst,
                    properties@,
                ),
            },
    ;

    fn set_node_property(&mut self, id: NodeId, key: String, value: PropertyValue)
        requires
            old(self).valid(),
        ensures
            final(self).valid(),
            final(self).store() == store::node_prop_set(old(self).store(), id, key@, value@),
    ;

    fn set_edge_property(&mut self, id: EdgeId, key: String, value: PropertyValue)
        requires
            old(self).valid(),
        ensures
            final(self).valid(),
            final(self).store() == store::edge_prop_set(old(self).store(), id, key@, value@),
    ;

    fn set_node_all_properties(&mut self, id: NodeId, properties: PropertyMap)
        requires
            old(self).valid(),
        ensures
            final(self).valid(),
            final(self).store() == store::node_props_set(old(self).store(), id, properties@),
    ;

    fn set_edge_all_properties(&mut self, id: EdgeId, properties: PropertyMap)
        requires
            old(self).valid(),
        ensures
            final(self).valid(),
            final(self).store() == store::edge_props_set(old(self).store(), id, properties@),
    ;

    fn merge_node_properties(&mut self, id: NodeId, properties: PropertyMap)
        requires
            old(self).valid(),
        ensures
            final(self).valid(),
            final(self).store() == store::node_props_merged(old(self).store(), id, properties@),
    ;

    fn merge_edge_properties(&mut self, id: EdgeId, properties: PropertyMap)
        requires
            old(self).valid(),
        ensures
            final(self).valid(),
            final(self).store() == store::edge_props_merged(old(self).store(), id, properties@),
    ;

    fn add_node_labels(&mut self, id: NodeId, labels: &Vec<String>)
        requires
            old(self).valid(),
        ensures
            final(self).valid(),
            final(self).store() == store::node_labels_added(
                old(self).store(),
                id,
                text::texts_view(labels@),
            ),
    ;

    fn remove_node_property(&mut self, id: NodeId, key: &str)
        requires
            old(self).valid(),
        ensures
            final(self).valid(),
            final(self).store() == store::node_prop_removed(old(self).store(), id, key@),
    ;

    fn remove_node_labels(&mut self, id: NodeId, labels: &Vec<String>)
        requires
            old(self).valid(),
        ensures
            final(self).valid(),
            final(self).store() == store::node_labels_removed(
                old(self).store(),
                id,
                text::texts_view(labels@),
            ),
    ;

    fn remove_edge_property(&mut self, id: EdgeId, key: &str)
        requires
            old(self).valid(),
        ensures
            final(self).valid(),
            final(self).store() == store::edge_prop_removed(old(self).store(), id, key@),
    ;

    /// Deletes a node. Without `detach` it must have no relationships; with
    /// it they are deleted too.
    fn delete_node(&mut self, id: NodeId, detach: bool) -> (r: Result<(), String>)
        requires
            old(self).valid(),
        ensures
            final(self).valid(),
            done_or_refused(
                r,
                store::delete_refusal(old(self).store(), id, detach),
                old(self).store(),
                final(self).store(),
                store::node_deleted(old(self).store(), id),
            ),
    ;

    fn delete_edge(&mut self, id: EdgeId) -> (r: Result<(), String>)
        requires
            old(self).valid(),
        ensures
            final(self).valid(),
            done_or_refused(
                r,
                if store::edge_at(old(self).store(), id) is None {
                    Some(store::edge_missing(id))
                } else {
                    None
                },
                old(self).store(),
                final(self).store(),
                store::edge_deleted(old(self).store(), id),
            ),
    ;

    /// Demands that a property have different values on the nodes with a
    /// label. Refused where the graph already breaks it.
    fn add_unique_constraint(&mut self, label: &str, property: &str) -> (r: Result<(), Refusal>)
        requires
            old(self).valid(),
        ensures
            final(self).valid(),
            done_or_denied(
                r,
                store::unique_refusal(old(self).store(), label@, property@),
                old(self).store(),
                final(self).store(),
                store::unique_added(old(self).store(), label@, property@),
            ),
    ;

    /// Whether a node with a label and a value would break a unique constraint.
    fn check_unique_constraint(&self, label: &str, property: &str, value: &PropertyValue) -> (r:
        Result<(), Refusal>)
        requires
            self.valid(),
        ensures
            passed_or_denied(r, store::unique_breach(self.store(), label@, property@, value@)),
    ;

    /// Label and property of each unique constraint.
    fn list_unique_constraints(&self) -> (r: Vec<(String, String)>)
        requires
            self.valid(),
        ensures
            text_pairs(r@) == self.store().unique,
    ;

    fn add_not_null_constraint(&mut self, label: &str, property: &str) -> (r: Result<(), String>)
        requires
            old(self).valid(),
        ensures
            final(self).valid(),
            done_or_refused(
                r,
                store::not_null_refusal(old(self).store(), label@, property@),
                old(self).store(),
                final(self).store(),
                store::not_null_added(old(self).store(), label@, property@),
            ),
    ;

    fn check_not_null_constraints(&self, labels: &Vec<String>, properties: &PropertyMap) -> (r:
        Result<(), String>)
        requires
            self.valid(),
        ensures
            passed_or_refused(
                r,
                store::not_null_breach(
                    self.store().not_null,
                    text::texts_view(labels@),
                    properties@,
                    0,
                ),
            ),
    ;

    fn add_node_key_constraint(&mut self, label: &str, properties: &Vec<String>) -> (r: Result<
        (),
        String,
    >)
        requires
            old(self).valid(),
        ensures
            final(self).valid(),
            done_or_refused(
                r,
                store::node_key_refusal(
                    old(self).store(),
                    label@,
                    text::texts_view(properties@),
                ),
                old(self).store(),
                final(self).store(),
                store::node_key_added(old(self).store(), label@, text::texts_view(properties@)),
            ),
    ;

    fn check_node_key_constraints(&self, labels: &Vec<String>, properties: &PropertyMap) -> (r:
        Result<(), Refusal>)
        requires
            self.valid(),
        ensures
            passed_or_denied(
                r,
                store::node_key_breach(self.store(), text::texts_view(labels@), properties@, 0),
            ),
    ;

    fn add_property_type_constraint(&mut self, label: &str, property: &str, kind: &str) -> (r:
        Result<(), String>)
        requires
            old(self).valid(),
        ensures
            final(self).valid(),
            done_or_refused(
                r,
                store::type_refusal(old(self).store(), label@, property@, kind@),
                old(self).store(),
                final(self).store(),
                store::type_added(old(self).store(), label@, property@, kind@),
            ),
    ;

    fn check_property_type_constraints(&self, labels: &Vec<String>, properties: &PropertyMap) -> (r:
        Result<(), String>)
        requires
            self.valid(),
        ensures
            passed_or_refused(
                r,
                store::type_breach(
                    self.store().prop_types,
                    text::texts_view(labels@),
                    properties@,
                    0,
                ),
            ),
    ;
}

} // verus!
