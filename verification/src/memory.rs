//! Storage in memory.
use crate::assoc;
use crate::backend::{self, StorageBackend};
use crate::constraints::{
    self, find_key_breach, find_node_key_conflict, find_not_null_breach, find_not_null_conflict,
    find_type_breach, find_type_conflict, find_unique_conflict, same_property,
};
use crate::eval::has_all_labels;
use crate::index::{self, between_key, key_of_text, prop_key, Index};
use crate::merges::properties_match;
use crate::refusal::Refusal;
use crate::store::{self, StoreV};
use crate::text::{self, clone_texts, join3, list_has, same_text, u64_text};
use crate::value::{
    self, Edge, EdgeId, EdgeV, Node, NodeId, NodeV, PropertyMap, PropertyValue, PropsV, PropV,
};
use vstd::prelude::*;

verus! {

/// Another name of the storage in memory.
pub type GraphStorage = MemoryStorage;

/// Storage in memory. Nodes and relationships stand at the positions that
/// their identifiers give. Indexes lead from a node to its relationships, from
/// a label or a property value to the nodes that have it, and from two nodes
/// and a type to the relationships between them.
pub struct MemoryStorage {
    nodes: Vec<Option<Node>>,
    edges: Vec<Option<Edge>>,
    outgoing: Index,
    incoming: Index,
    adjacency: Index,
    label_index: Index,
    property_index: Index,
    unique: Vec<(String, String)>,
    not_null: Vec<(String, String)>,
    node_keys: Vec<(String, Vec<String>)>,
    prop_types: Vec<(String, String, String)>,
}

/// The view of nodes at their positions.
pub open spec fn node_slots(s: Seq<Option<Node>>) -> Seq<Option<NodeV>> {
    Seq::new(s.len(), |i: int| backend::opt_node(s[i]))
}

/// The view of relationships at their positions.
pub open spec fn edge_slots(s: Seq<Option<Edge>>) -> Seq<Option<EdgeV>> {
    Seq::new(s.len(), |i: int| backend::opt_edge(s[i]))
}

/// The view of labels with their properties.
pub open spec fn key_lists(s: Seq<(String, Vec<String>)>) -> Seq<(Seq<char>, Seq<Seq<char>>)> {
    Seq::new(s.len(), |i: int| (s[i].0@, text::texts_view(s[i].1@)))
}

/// The labels of a node lead to it.
spec fn labels_lead(idx: Index, labels: Seq<Seq<char>>, id: u64) -> bool {
    forall|j: int|
        0 <= j < labels.len() ==> idx.has(index::label_entry(#[trigger] labels[j]), id)
}

/// The properties of a node lead to it.
spec fn props_lead(idx: Index, props: PropsV, id: u64) -> bool {
    forall|j: int|
        0 <= j < props.len() ==> idx.has(
            index::prop_entry((#[trigger] props[j]).0, props[j].1),
            id,
        )
}

/// A node can be found by its labels and properties.
spec fn node_found(labels: Index, props: Index, n: NodeV, id: u64) -> bool {
    labels_lead(labels, n.labels, id) && props_lead(props, n.properties, id)
}

/// A relationship can be found from its ends.
spec fn edge_found(out: Index, inc: Index, adj: Index, e: EdgeV, id: u64) -> bool {
    out.has(e.src, id) && inc.has(e.dst, id) && adj.has(
        index::between_entry(e.src, e.label, e.dst),
        id,
    )
}

/// Every node can be found, except perhaps one.
#[verifier::opaque]
spec fn nodes_found(labels: Index, props: Index, nodes: Seq<Option<NodeV>>, but: int) -> bool {
    forall|i: int|
        #![trigger nodes[i]]
        0 <= i < nodes.len() && i != but ==> (nodes[i] matches Some(n) ==> node_found(
            labels,
            props,
            n,
            i as u64,
        ))
}

/// Every relationship can be found.
#[verifier::opaque]
spec fn edges_found(out: Index, inc: Index, adj: Index, edges: Seq<Option<EdgeV>>) -> bool {
    forall|i: int|
        #![trigger edges[i]]
        0 <= i < edges.len() ==> (edges[i] matches Some(e) ==> edge_found(
            out,
            inc,
            adj,
            e,
            i as u64,
        ))
}

/// The graph is well-formed.
#[verifier::opaque]
spec fn sound(st: StoreV) -> bool {
    store::well_formed(st)
}

proof fn lemma_sound_ids(st: StoreV, id: u64)
    requires
        sound(st),
    ensures
        store::node_at(st, id) matches Some(n) ==> n.id == id,
        store::edge_at(st, id) matches Some(e) ==> e.id == id,
        st.nodes.len() <= u64::MAX,
        st.edges.len() <= u64::MAX,
{
    reveal(sound);
}

proof fn lemma_sound_node_created(st: StoreV, labels: Seq<Seq<char>>, properties: PropsV)
    requires
        sound(st),
        st.nodes.len() < u64::MAX,
    ensures
        sound(store::node_created(st, labels, properties)),
{
    reveal(sound);
    store::lemma_node_created(st, labels, properties, 0);
}

proof fn lemma_sound_edge_created(
    st: StoreV,
    label: Seq<char>,
    src: u64,
    dst: u64,
    properties: PropsV,
)
    requires
        sound(st),
        st.edges.len() < u64::MAX,
        store::edge_refusal(st, src, dst) is None,
    ensures
        sound(store::edge_created(st, label, src, dst, properties)),
{
    reveal(sound);
    store::lemma_edge_created(st, label, src, dst, properties, 0);
}

proof fn lemma_sound_node_replaced(st: StoreV, n: NodeV)
    requires
        sound(st),
        store::node_at(st, n.id) is Some,
    ensures
        sound((StoreV { nodes: st.nodes.update(n.id as int, Some(n)), ..st })),
{
    reveal(sound);
    store::lemma_node_replaced(st, n);
}

proof fn lemma_sound_edge_replaced(st: StoreV, e: EdgeV)
    requires
        sound(st),
        store::edge_at(st, e.id) matches Some(was) && was.src == e.src && was.dst == e.dst,
    ensures
        sound((StoreV { edges: st.edges.update(e.id as int, Some(e)), ..st })),
{
    reveal(sound);
    store::lemma_edge_replaced(st, e);
}

proof fn lemma_sound_edge_deleted(st: StoreV, id: u64)
    requires
        sound(st),
        id < st.edges.len(),
    ensures
        sound(store::edge_deleted(st, id)),
{
    reveal(sound);
    if store::edge_at(st, id) is Some {
        store::lemma_edge_deleted(st, id, 0);
    } else {
        assert(store::edge_deleted(st, id).edges =~= st.edges);
    }
}

proof fn lemma_sound_node_deleted(st: StoreV, id: u64)
    requires
        sound(st),
        store::node_at(st, id) is Some,
    ensures
        sound(store::node_deleted(st, id)),
{
    reveal(sound);
    store::lemma_node_deleted(st, id, 0);
}

/// Constraints do not bear on what is sound.
proof fn lemma_sound_same(a: StoreV, b: StoreV)
    requires
        sound(a),
        a.nodes == b.nodes,
        a.edges == b.edges,
    ensures
        sound(b),
{
    reveal(sound);
    assert forall|i: int|
        #![trigger b.edges[i]]
        0 <= i < b.edges.len() implies (b.edges[i] matches Some(e) ==> e.id == i
        && store::node_at(b, e.src) is Some && store::node_at(b, e.dst) is Some) by {
        if let Some(e) = b.edges[i] {
            assert(a.edges[i] == Some(e));
            assert(store::node_at(a, e.src) is Some && store::node_at(a, e.dst) is Some);
        }
    }
}

/// Gaps do not bear on what is sound.
proof fn lemma_sound_skipped(a: StoreV, b: StoreV)
    requires
        sound(a),
        b.nodes == a.nodes && b.edges == a.edges.push(None) || b.edges == a.edges && b.nodes
            == a.nodes.push(None),
        b.nodes.len() <= u64::MAX,
        b.edges.len() <= u64::MAX,
    ensures
        sound(b),
{
    reveal(sound);
    assert forall|i: int|
        #![trigger b.nodes[i]]
        0 <= i < b.nodes.len() implies (b.nodes[i] matches Some(n) ==> n.id == i) by {
        if i < a.nodes.len() {
            assert(b.nodes[i] == a.nodes[i]);
        }
    }
    assert forall|i: int|
        #![trigger b.edges[i]]
        0 <= i < b.edges.len() implies (b.edges[i] matches Some(e) ==> e.id == i
        && store::node_at(b, e.src) is Some && store::node_at(b, e.dst) is Some) by {
        if i < a.edges.len() {
            assert(b.edges[i] == a.edges[i]);
        }
    }
}

/// Whatever an index has but for one identifier, the other has too.
spec fn kept_but(a: Index, b: Index, id: u64) -> bool {
    forall|k: u64, x: u64| x != id && a.has(k, x) ==> #[trigger] b.has(k, x)
}

/// Whatever an index has, the other has too.
spec fn kept(a: Index, b: Index) -> bool {
    forall|k: u64, x: u64| a.has(k, x) ==> #[trigger] b.has(k, x)
}

proof fn lemma_node_found(labels: Index, props: Index, nodes: Seq<Option<NodeV>>, i: int)
    requires
        nodes_found(labels, props, nodes, -1),
        0 <= i < nodes.len(),
    ensures
        nodes[i] matches Some(n) ==> node_found(labels, props, n, i as u64),
{
    reveal(nodes_found);
}

proof fn lemma_edge_found(out: Index, inc: Index, adj: Index, edges: Seq<Option<EdgeV>>, i: int)
    requires
        edges_found(out, inc, adj, edges),
        0 <= i < edges.len(),
    ensures
        edges[i] matches Some(e) ==> edge_found(out, inc, adj, e, i as u64),
{
    reveal(edges_found);
}

/// Entries of one node may go.
proof fn lemma_node_struck(
    l0: Index,
    p0: Index,
    l1: Index,
    p1: Index,
    nodes: Seq<Option<NodeV>>,
    id: u64,
)
    requires
        nodes_found(l0, p0, nodes, -1),
        nodes.len() <= u64::MAX,
        kept_but(l0, l1, id),
        kept_but(p0, p1, id),
    ensures
        nodes_found(l1, p1, nodes, id as int),
{
    reveal(nodes_found);
}

/// With the entries of one more node in place, every node can be found.
proof fn lemma_node_entered(
    l0: Index,
    p0: Index,
    l1: Index,
    p1: Index,
    before: Seq<Option<NodeV>>,
    after: Seq<Option<NodeV>>,
    id: u64,
)
    requires
        nodes_found(l0, p0, before, id as int),
        before.len() <= after.len() <= u64::MAX,
        forall|i: int|
            0 <= i < after.len() && i != id as int ==> i < before.len() && #[trigger] after[i]
                == before[i],
        kept(l0, l1),
        kept(p0, p1),
        id < after.len(),
        after[id as int] matches Some(n) ==> node_found(l1, p1, n, id),
    ensures
        nodes_found(l1, p1, after, -1),
{
    reveal(nodes_found);
    assert forall|i: int|
        #![trigger after[i]]
        0 <= i < after.len() && i != -1 implies (after[i] matches Some(n) ==> node_found(
        l1,
        p1,
        n,
        i as u64,
    )) by {
        if i != id as int {
            assert(after[i] == before[i]);
        }
    }
}

/// A node that is new to the graph has no entries to keep.
proof fn lemma_nodes_but_new(labels: Index, props: Index, nodes: Seq<Option<NodeV>>)
    requires
        nodes_found(labels, props, nodes, -1),
    ensures
        nodes_found(labels, props, nodes, nodes.len() as int),
{
    reveal(nodes_found);
}

/// The entries of other relationships are enough.
proof fn lemma_edges_kept(
    o0: Index,
    i0: Index,
    a0: Index,
    o1: Index,
    i1: Index,
    a1: Index,
    before: Seq<Option<EdgeV>>,
    after: Seq<Option<EdgeV>>,
    id: u64,
)
    requires
        edges_found(o0, i0, a0, before),
        before.len() <= after.len() <= u64::MAX,
        forall|i: int|
            0 <= i < after.len() && i != id as int ==> i < before.len() && #[trigger] after[i]
                == before[i],
        kept_but(o0, o1, id),
        kept_but(i0, i1, id),
        kept_but(a0, a1, id),
        id < after.len(),
        after[id as int] matches Some(e) ==> edge_found(o1, i1, a1, e, id),
    ensures
        edges_found(o1, i1, a1, after),
{
    reveal(edges_found);
    assert forall|i: int|
        #![trigger after[i]]
        0 <= i < after.len() implies (after[i] matches Some(e) ==> edge_found(
        o1,
        i1,
        a1,
        e,
        i as u64,
    )) by {
        if i != id as int {
            assert(after[i] == before[i]);
        }
    }
}

// ---------------------------------------------------------------------------
// Index entries
// ---------------------------------------------------------------------------

fn enter_labels(idx: &mut Index, labels: &Vec<String>, id: u64)
    requires
        old(idx).sorted(),
    ensures
        final(idx).sorted(),
        kept(*old(idx), *final(idx)),
        labels_lead(*final(idx), text::texts_view(labels@), id),
{
    let mut i: usize = 0;
    while i < labels.len()
        invariant
            i <= labels.len(),
            idx.sorted(),
            kept(*old(idx), *idx),
            forall|j: int|
                0 <= j < i ==> idx.has(
                    index::label_entry(#[trigger] text::texts_view(labels@)[j]),
                    id,
                ),
        decreases labels.len() - i,
    {
        idx.add_entry(key_of_text(1, labels[i].as_str()), id);
        i += 1;
    }
}

fn strike_labels(idx: &mut Index, labels: &Vec<String>, id: u64)
    requires
        old(idx).sorted(),
    ensures
        final(idx).sorted(),
        kept_but(*old(idx), *final(idx), id),
{
    let mut i: usize = 0;
    while i < labels.len()
        invariant
            i <= labels.len(),
            idx.sorted(),
            kept_but(*old(idx), *idx, id),
        decreases labels.len() - i,
    {
        idx.drop_entry(key_of_text(1, labels[i].as_str()), id);
        i += 1;
    }
}

fn enter_props(idx: &mut Index, props: &PropertyMap, id: u64)
    requires
        old(idx).sorted(),
    ensures
        final(idx).sorted(),
        kept(*old(idx), *final(idx)),
        props_lead(*final(idx), props@, id),
{
    let mut i: usize = 0;
    while i < props.entries.len()
        invariant
            i <= props.entries.len(),
            idx.sorted(),
            kept(*old(idx), *idx),
            forall|j: int|
                0 <= j < i ==> idx.has(
                    index::prop_entry((#[trigger] props@[j]).0, props@[j].1),
                    id,
                ),
        decreases props.entries.len() - i,
    {
        idx.add_entry(prop_key(props.entries[i].0.as_str(), &props.entries[i].1), id);
        i += 1;
    }
}

fn strike_props(idx: &mut Index, props: &PropertyMap, id: u64)
    requires
        old(idx).sorted(),
    ensures
        final(idx).sorted(),
        kept_but(*old(idx), *final(idx), id),
{
    let mut i: usize = 0;
    while i < props.entries.len()
        invariant
            i <= props.entries.len(),
            idx.sorted(),
            kept_but(*old(idx), *idx, id),
        decreases props.entries.len() - i,
    {
        idx.drop_entry(prop_key(props.entries[i].0.as_str(), &props.entries[i].1), id);
        i += 1;
    }
}

// ---------------------------------------------------------------------------
// Choosing
// ---------------------------------------------------------------------------

/// What nodes are looked for by.
enum NodeTest<'a> {
    Label(Option<&'a str>),
    Props(Option<&'a str>, &'a PropertyMap),
    Pattern(&'a Vec<String>, &'a PropertyMap),
}

impl<'a> NodeTest<'a> {
    spec fn passes(&self, n: NodeV) -> bool {
        match self {
            NodeTest::Label(l) => store::has_label(n, backend::opt_str(*l)),
            NodeTest::Props(l, props) => store::has_label(n, backend::opt_str(*l))
                && store::has_equal_props(n.properties, props@, 0),
            NodeTest::Pattern(labels, props) => store::has_labels(
                n.labels,
                text::texts_view(labels@),
                0,
            ) && store::has_equal_props(n.properties, props@, 0),
        }
    }

    spec fn test(&self) -> spec_fn(NodeV) -> bool {
        |n: NodeV| self.passes(n)
    }

    fn check(&self, n: &Node) -> (r: bool)
        ensures
            r == self.passes(n@),
    {
        match self {
            NodeTest::Label(l) => label_fits(n, *l),
            NodeTest::Props(l, props) => label_fits(n, *l) && properties_match(
                &n.properties,
                props,
            ),
            NodeTest::Pattern(labels, props) => has_all_labels(&n.labels, labels)
                && properties_match(&n.properties, props),
        }
    }
}

fn label_fits(n: &Node, label: Option<&str>) -> (r: bool)
    ensures
        r == store::has_label(n@, backend::opt_str(label)),
{
    match label {
        Some(l) => list_has(&n.labels, l),
        None => true,
    }
}

proof fn lemma_equal_props(props: PropsV, required: PropsV, i: int, j: int)
    requires
        0 <= i <= j < required.len(),
        store::has_equal_props(props, required, i),
    ensures
        assoc::lookup(props, required[j].0) matches Some(v) && store::props_equal(v, required[j].1),
    decreases j - i,
{
    if i < j {
        lemma_equal_props(props, required, i + 1, j);
    }
}

/// Equal property values have one key in the index.
proof fn lemma_equal_entries(k: Seq<char>, a: PropV, b: PropV)
    requires
        store::props_equal(a, b),
    ensures
        index::prop_entry(k, a) == index::prop_entry(k, b),
{
}

/// What relationships are looked for by.
enum EdgeTest<'a> {
    Any,
    From(NodeId),
    To(NodeId),
    Between(NodeId, &'a str, NodeId),
}

impl<'a> EdgeTest<'a> {
    spec fn passes(&self, e: EdgeV) -> bool {
        match self {
            EdgeTest::Any => true,
            EdgeTest::From(id) => e.src == *id,
            EdgeTest::To(id) => e.dst == *id,
            EdgeTest::Between(a, l, b) => e.src == *a && e.label == l@ && e.dst == *b,
        }
    }

    spec fn test(&self) -> spec_fn(EdgeV) -> bool {
        |e: EdgeV| self.passes(e)
    }

    fn check(&self, e: &Edge) -> (r: bool)
        ensures
            r == self.passes(e@),
    {
        match self {
            EdgeTest::Any => true,
            EdgeTest::From(id) => e.src == *id,
            EdgeTest::To(id) => e.dst == *id,
            EdgeTest::Between(a, l, b) => e.src == *a && same_text(e.label.as_str(), *l) && e.dst
                == *b,
        }
    }
}

/// The first `n` identifiers.
fn first_ids(n: usize) -> (r: Vec<u64>)
    ensures
        r.len() == n,
        forall|i: int| 0 <= i < n ==> r@[i] == i,
        index::ordered(r@),
        forall|x: u64| r@.contains(x) <==> x < n,
{
    let mut r: Vec<u64> = Vec::new();
    let mut i: usize = 0;
    while i < n
        invariant
            i <= n,
            r.len() == i,
            forall|j: int| 0 <= j < i ==> r@[j] == j,
        decreases n - i,
    {
        r.push(i as u64);
        i += 1;
    }
    proof {
        assert forall|x: u64| r@.contains(x) <==> x < n by {
            if x < n {
                assert(r@[x as int] == x);
            }
        }
    }
    r
}

impl MemoryStorage {
    pub fn new() -> (r: Self)
        ensures
            r.valid(),
            r.store() == store::empty_store(),
    {
        let r = MemoryStorage {
            nodes: Vec::new(),
            edges: Vec::new(),
            outgoing: Index::new(),
            incoming: Index::new(),
            adjacency: Index::new(),
            label_index: Index::new(),
            property_index: Index::new(),
            unique: Vec::new(),
            not_null: Vec::new(),
            node_keys: Vec::new(),
            prop_types: Vec::new(),
        };
        proof {
            assert(r.store().nodes =~= Seq::empty());
            assert(r.store().edges =~= Seq::empty());
            assert(r.store().unique =~= Seq::empty());
            assert(r.store().not_null =~= Seq::empty());
            assert(r.store().node_keys =~= Seq::empty());
            assert(r.store().prop_types =~= Seq::empty());
            reveal(sound);
            reveal(nodes_found);
            reveal(edges_found);
        }
        r
    }

    /// Leaves a gap where a node was deleted.
    pub fn skip_node(&mut self)
        requires
            old(self).valid(),
        ensures
            final(self).valid(),
            final(self).store() == (StoreV {
                nodes: old(self).store().nodes.push(None),
                ..old(self).store()
            }),
    {
        let ghost st0 = self.store();
        self.nodes.push(None);
        proof {
            let st1 = StoreV { nodes: st0.nodes.push(None), ..st0 };
            assert(node_slots(self.nodes@) =~= st1.nodes);
            assert(self.nodes.len() <= usize::MAX);
            lemma_nodes_but_new(self.label_index, self.property_index, st0.nodes);
            lemma_node_entered(
                self.label_index,
                self.property_index,
                self.label_index,
                self.property_index,
                st0.nodes,
                st1.nodes,
                st0.nodes.len() as u64,
            );
            lemma_sound_ids(st0, 0);
            lemma_sound_skipped(st0, st1);
        }
    }

    /// Leaves a gap where a relationship was deleted.
    pub fn skip_edge(&mut self)
        requires
            old(self).valid(),
        ensures
            final(self).valid(),
            final(self).store() == (StoreV {
                edges: old(self).store().edges.push(None),
                ..old(self).store()
            }),
    {
        let ghost st0 = self.store();
        self.edges.push(None);
        proof {
            let st1 = StoreV { edges: st0.edges.push(None), ..st0 };
            assert(edge_slots(self.edges@) =~= st1.edges);
            assert(self.edges.len() <= usize::MAX);
            lemma_edges_kept(
                self.outgoing,
                self.incoming,
                self.adjacency,
                self.outgoing,
                self.incoming,
                self.adjacency,
                st0.edges,
                st1.edges,
                st0.edges.len() as u64,
            );
            lemma_sound_ids(st0, 0);
            lemma_sound_skipped(st0, st1);
        }
    }

    /// Takes over constraints without a look at the graph.
    pub fn set_constraints(
        &mut self,
        unique: Vec<(String, String)>,
        not_null: Vec<(String, String)>,
        node_keys: Vec<(String, Vec<String>)>,
        prop_types: Vec<(String, String, String)>,
    )
        requires
            old(self).valid(),
        ensures
            final(self).valid(),
            final(self).store() == (StoreV {
                unique: backend::text_pairs(unique@),
                not_null: backend::text_pairs(not_null@),
                node_keys: key_lists(node_keys@),
                prop_types: constraints::text_triples(prop_types@),
                ..old(self).store()
            }),
    {
        let ghost st0 = self.store();
        self.unique = unique;
        self.not_null = not_null;
        self.node_keys = node_keys;
        self.prop_types = prop_types;
        proof {
            lemma_sound_same(st0, self.store());
        }
    }

    /// The nodes at their positions.
    pub fn nodes(&self) -> (r: &Vec<Option<Node>>)
        ensures
            node_slots(r@) == self.store().nodes,
    {
        &self.nodes
    }

    /// The relationships at their positions.
    pub fn edges(&self) -> (r: &Vec<Option<Edge>>)
        ensures
            edge_slots(r@) == self.store().edges,
    {
        &self.edges
    }

    /// Label and property of each NOT NULL constraint.
    pub fn not_null_constraints(&self) -> (r: &Vec<(String, String)>)
        ensures
            backend::text_pairs(r@) == self.store().not_null,
    {
        &self.not_null
    }

    /// Label and properties of each NODE KEY constraint.
    pub fn node_key_constraints(&self) -> (r: &Vec<(String, Vec<String>)>)
        ensures
            key_lists(r@) == self.store().node_keys,
    {
        &self.node_keys
    }

    /// Label, property and type of each PROPERTY TYPE constraint.
    pub fn property_type_constraints(&self) -> (r: &Vec<(String, String, String)>)
        ensures
            constraints::text_triples(r@) == self.store().prop_types,
    {
        &self.prop_types
    }

    /// The identifiers among candidates of the nodes that pass a test.
    fn choose_nodes(&self, cands: &Vec<u64>, test: &NodeTest) -> (r: Vec<u64>)
        requires
            self.valid(),
            index::ordered(cands@),
            forall|i: int|
                0 <= i < self.store().nodes.len() && (#[trigger] self.store().nodes[i] matches Some(
                    n,
                ) && test.passes(n)) ==> cands@.contains(i as u64),
        ensures
            r@ == store::chosen_ids(
                self.store().nodes,
                test.test(),
                self.store().nodes.len() as int,
            ),
    {
        let ghost nodes = self.store().nodes;
        let mut r: Vec<u64> = Vec::new();
        let mut i: usize = 0;
        while i < cands.len()
            invariant
                self.valid(),
                nodes == self.store().nodes,
                i <= cands.len(),
                index::ordered(cands@),
                index::ordered(r@),
                r.len() > 0 ==> i > 0 && r@.last() <= cands@[i - 1],
                forall|x: u64|
                    r@.contains(x) ==> x < nodes.len() && (nodes[x as int] matches Some(n)
                        && test.passes(n)),
                forall|j: int|
                    0 <= j < i && cands@[j] < nodes.len() && (nodes[cands@[j] as int] matches Some(
                        n,
                    ) && test.passes(n)) ==> r@.contains(#[trigger] cands@[j]),
            decreases cands.len() - i,
        {
            let id = cands[i];
            let ghost before = r@;
            if id < self.nodes.len() as u64 {
                if let Some(n) = &self.nodes[id as usize] {
                    proof {
                        assert(nodes[id as int] == Some(n@));
                    }
                    if test.check(n) {
                        r.push(id);
                    }
                }
            }
            proof {
                if r@ != before {
                    assert(r@ == before.push(id));
                    assert(r@[before.len() as int] == id);
                    assert forall|x: u64| r@.contains(x) implies x < nodes.len() && (
                    nodes[x as int] matches Some(n) && test.passes(n)) by {
                        let k = choose|k: int| 0 <= k < r@.len() && r@[k] == x;
                        if k < before.len() {
                            assert(before[k] == x);
                            assert(before.contains(x));
                        }
                    }
                    assert forall|j: int|
                        0 <= j < i + 1 && cands@[j] < nodes.len() && (
                        nodes[cands@[j] as int] matches Some(n) && test.passes(
                            n,
                        )) implies r@.contains(#[trigger] cands@[j]) by {
                        if j < i {
                            assert(before.contains(cands@[j]));
                            let k = choose|k: int| 0 <= k < before.len() && before[k] == cands@[j];
                            assert(r@[k] == cands@[j]);
                        }
                    }
                }
            }
            i += 1;
        }
        proof {
            let want = store::chosen_ids(nodes, test.test(), nodes.len() as int);
            lemma_sound_ids(self.store(), 0);
            index::lemma_chosen_ids(nodes, test.test(), nodes.len() as int);
            assert forall|x: u64| r@.contains(x) <==> want.contains(x) by {
                if want.contains(x) {
                    assert(nodes[x as int] is Some);
                    assert(cands@.contains(x));
                    let j = choose|j: int| 0 <= j < cands@.len() && cands@[j] == x;
                    assert(r@.contains(cands@[j]));
                }
            }
            index::lemma_ordered_same(r@, want);
        }
        r
    }

    /// The nodes with the chosen identifiers.
    fn nodes_at(&self, ids: &Vec<u64>, test: &NodeTest) -> (r: Vec<Node>)
        requires
            self.valid(),
            ids@ == store::chosen_ids(
                self.store().nodes,
                test.test(),
                self.store().nodes.len() as int,
            ),
        ensures
            value::nodes_view(r@) == store::chosen(
                self.store().nodes,
                test.test(),
                self.store().nodes.len() as int,
            ),
    {
        let ghost nodes = self.store().nodes;
        let ghost want = store::chosen(nodes, test.test(), nodes.len() as int);
        proof {
            lemma_sound_ids(self.store(), 0);
            index::lemma_chosen_ids(nodes, test.test(), nodes.len() as int);
            index::lemma_chosen(nodes, test.test(), nodes.len() as int);
            assert forall|j: int| 0 <= j < ids.len() implies #[trigger] ids@[j] < nodes.len() by {
                assert(ids@.contains(ids@[j]));
            }
        }
        let mut r: Vec<Node> = Vec::new();
        let mut i: usize = 0;
        while i < ids.len()
            invariant
                self.valid(),
                nodes == self.store().nodes,
                i <= ids.len(),
                r.len() == i,
                want.len() == ids.len(),
                forall|j: int| 0 <= j < ids.len() ==> (#[trigger] ids@[j]) < nodes.len(),
                forall|j: int|
                    0 <= j < want.len() ==> nodes[ids@[j] as int] == Some(#[trigger] want[j]),
                forall|j: int| 0 <= j < i ==> (#[trigger] r@[j])@ == want[j],
            decreases ids.len() - i,
        {
            proof {
                let w = want[i as int];
                assert(nodes[ids@[i as int] as int] == Some(w));
                assert(nodes[ids@[i as int] as int] == backend::opt_node(
                    self.nodes@[ids@[i as int] as int],
                ));
            }
            proof {
                assert(ids@[i as int] < self.nodes.len());
            }
            if let Some(n) = &self.nodes[ids[i] as usize] {
                r.push(n.clone());
            }
            i += 1;
        }
        proof {
            assert(value::nodes_view(r@) =~= want);
        }
        r
    }

    /// The identifiers among candidates of the relationships that pass a test.
    fn choose_edges(&self, cands: &Vec<u64>, test: &EdgeTest) -> (r: Vec<u64>)
        requires
            self.valid(),
            index::ordered(cands@),
            forall|i: int|
                0 <= i < self.store().edges.len() && (#[trigger] self.store().edges[i] matches Some(
                    e,
                ) && test.passes(e)) ==> cands@.contains(i as u64),
        ensures
            r@ == store::chosen_ids(
                self.store().edges,
                test.test(),
                self.store().edges.len() as int,
            ),
    {
        let ghost edges = self.store().edges;
        let mut r: Vec<u64> = Vec::new();
        let mut i: usize = 0;
        while i < cands.len()
            invariant
                self.valid(),
                edges == self.store().edges,
                i <= cands.len(),
                index::ordered(cands@),
                index::ordered(r@),
                r.len() > 0 ==> i > 0 && r@.last() <= cands@[i - 1],
                forall|x: u64|
                    r@.contains(x) ==> x < edges.len() && (edges[x as int] matches Some(e)
                        && test.passes(e)),
                forall|j: int|
                    0 <= j < i && cands@[j] < edges.len() && (edges[cands@[j] as int] matches Some(
                        e,
                    ) && test.passes(e)) ==> r@.contains(#[trigger] cands@[j]),
            decreases cands.len() - i,
        {
            let id = cands[i];
            let ghost before = r@;
            if id < self.edges.len() as u64 {
                if let Some(e) = &self.edges[id as usize] {
                    proof {
                        assert(edges[id as int] == Some(e@));
                    }
                    if test.check(e) {
                        r.push(id);
                    }
                }
            }
            proof {
                if r@ != before {
                    assert(r@ == before.push(id));
                    assert(r@[before.len() as int] == id);
                    assert forall|x: u64| r@.contains(x) implies x < edges.len() && (
                    edges[x as int] matches Some(e) && test.passes(e)) by {
                        let k = choose|k: int| 0 <= k < r@.len() && r@[k] == x;
                        if k < before.len() {
                            assert(before[k] == x);
                            assert(before.contains(x));
                        }
                    }
                    assert forall|j: int|
                        0 <= j < i + 1 && cands@[j] < edges.len() && (
                        edges[cands@[j] as int] matches Some(e) && test.passes(
                            e,
                        )) implies r@.contains(#[trigger] cands@[j]) by {
                        if j < i {
                            assert(before.contains(cands@[j]));
                            let k = choose|k: int| 0 <= k < before.len() && before[k] == cands@[j];
                            assert(r@[k] == cands@[j]);
                        }
                    }
                }
            }
            i += 1;
        }
        proof {
            let want = store::chosen_ids(edges, test.test(), edges.len() as int);
            lemma_sound_ids(self.store(), 0);
            index::lemma_chosen_ids(edges, test.test(), edges.len() as int);
            assert forall|x: u64| r@.contains(x) <==> want.contains(x) by {
                if want.contains(x) {
                    assert(edges[x as int] is Some);
                    assert(cands@.contains(x));
                    let j = choose|j: int| 0 <= j < cands@.len() && cands@[j] == x;
                    assert(r@.contains(cands@[j]));
                }
            }
            index::lemma_ordered_same(r@, want);
        }
        r
    }

    /// The relationships with the chosen identifiers.
    fn edges_at(&self, ids: &Vec<u64>, test: &EdgeTest) -> (r: Vec<Edge>)
        requires
            self.valid(),
            ids@ == store::chosen_ids(
                self.store().edges,
                test.test(),
                self.store().edges.len() as int,
            ),
        ensures
            value::edges_view(r@) == store::chosen(
                self.store().edges,
                test.test(),
                self.store().edges.len() as int,
            ),
    {
        let ghost edges = self.store().edges;
        let ghost want = store::chosen(edges, test.test(), edges.len() as int);
        proof {
            lemma_sound_ids(self.store(), 0);
            index::lemma_chosen_ids(edges, test.test(), edges.len() as int);
            index::lemma_chosen(edges, test.test(), edges.len() as int);
            assert forall|j: int| 0 <= j < ids.len() implies #[trigger] ids@[j] < edges.len() by {
                assert(ids@.contains(ids@[j]));
            }
        }
        let mut r: Vec<Edge> = Vec::new();
        let mut i: usize = 0;
        while i < ids.len()
            invariant
                self.valid(),
                edges == self.store().edges,
                i <= ids.len(),
                r.len() == i,
                want.len() == ids.len(),
                forall|j: int| 0 <= j < ids.len() ==> (#[trigger] ids@[j]) < edges.len(),
                forall|j: int|
                    0 <= j < want.len() ==> edges[ids@[j] as int] == Some(#[trigger] want[j]),
                forall|j: int| 0 <= j < i ==> (#[trigger] r@[j])@ == want[j],
            decreases ids.len() - i,
        {
            proof {
                let w = want[i as int];
                assert(edges[ids@[i as int] as int] == Some(w));
                assert(edges[ids@[i as int] as int] == backend::opt_edge(
                    self.edges@[ids@[i as int] as int],
                ));
            }
            proof {
                assert(ids@[i as int] < self.edges.len());
            }
            if let Some(e) = &self.edges[ids[i] as usize] {
                r.push(e.clone());
            }
            i += 1;
        }
        proof {
            assert(value::edges_view(r@) =~= want);
        }
        r
    }

    /// The list of a key in an index, empty where there is none.
    fn entries(idx: &Index, k: u64) -> (r: Vec<u64>)
        requires
            idx.sorted(),
        ensures
            r@ == idx.list(k),
            index::ordered(r@),
    {
        proof {
            idx.lemma_sorted(k);
        }
        match idx.get(k) {
            Some(v) => {
                let mut r: Vec<u64> = Vec::new();
                let mut i: usize = 0;
                while i < v.len()
                    invariant
                        i <= v.len(),
                        r@ == v@.take(i as int),
                    decreases v.len() - i,
                {
                    r.push(v[i]);
                    i += 1;
                    proof {
                        assert(r@ =~= v@.take(i as int));
                    }
                }
                proof {
                    assert(r@ =~= v@);
                }
                r
            },
            None => {
                let r: Vec<u64> = Vec::new();
                proof {
                    assert(r@ =~= idx.list(k));
                }
                r
            },
        }
    }

    fn node_slot(&self, id: NodeId) -> (r: Option<&Node>)
        ensures
            match r {
                Some(n) => store::node_at(self.store(), id) == Some(n@) && id < self.nodes.len()
                    && self.nodes@[id as int] == Some(*n),
                None => store::node_at(self.store(), id) is None,
            },
    {
        if id < self.nodes.len() as u64 {
            proof {
                assert(self.store().nodes[id as int] == backend::opt_node(self.nodes@[id as int]));
            }
            self.nodes[id as usize].as_ref()
        } else {
            None
        }
    }

    fn edge_slot(&self, id: EdgeId) -> (r: Option<&Edge>)
        ensures
            match r {
                Some(e) => store::edge_at(self.store(), id) == Some(e@) && id < self.edges.len()
                    && self.edges@[id as int] == Some(*e),
                None => store::edge_at(self.store(), id) is None,
            },
    {
        if id < self.edges.len() as u64 {
            proof {
                assert(self.store().edges[id as int] == backend::opt_edge(self.edges@[id as int]));
            }
            self.edges[id as usize].as_ref()
        } else {
            None
        }
    }

    /// Puts a node in the place of the one that has its identifier.
    fn replace_node(&mut self, n: Node)
        requires
            old(self).valid(),
            n.id < old(self).store().nodes.len(),
            old(self).store().nodes[n.id as int] is Some,
        ensures
            final(self).valid(),
            final(self).store() == (StoreV {
                nodes: old(self).store().nodes.update(n.id as int, Some(n@)),
                ..old(self).store()
            }),
    {
        let id = n.id;
        let ghost st0 = self.store();
        let ghost l0 = self.label_index;
        let ghost p0 = self.property_index;
        proof {
            assert(id < self.nodes.len());
        }
        let before = self.nodes[id as usize].clone();
        if let Some(was) = before {
            strike_labels(&mut self.label_index, &was.labels, id);
            strike_props(&mut self.property_index, &was.properties, id);
        }
        let ghost l1 = self.label_index;
        let ghost p1 = self.property_index;
        enter_labels(&mut self.label_index, &n.labels, id);
        enter_props(&mut self.property_index, &n.properties, id);
        self.nodes.set(id as usize, Some(n));
        proof {
            let after = st0.nodes.update(id as int, Some(n@));
            assert(node_slots(self.nodes@) =~= after);
            lemma_node_struck(l0, p0, l1, p1, st0.nodes, id);
            lemma_node_entered(
                l1,
                p1,
                self.label_index,
                self.property_index,
                st0.nodes,
                after,
                id,
            );
            lemma_sound_node_replaced(st0, n@);
        }
    }

    /// Puts a relationship in the place of the one that has its identifier
    /// and its ends.
    fn replace_edge(&mut self, e: Edge)
        requires
            old(self).valid(),
            e.id < old(self).store().edges.len(),
            old(self).store().edges[e.id as int] matches Some(was) && was.src == e.src && was.dst
                == e.dst && was.label == e.label@,
        ensures
            final(self).valid(),
            final(self).store() == (StoreV {
                edges: old(self).store().edges.update(e.id as int, Some(e@)),
                ..old(self).store()
            }),
    {
        let ghost st0 = self.store();
        let id = e.id;
        proof {
            assert(id < self.edges.len());
        }
        self.edges.set(id as usize, Some(e));
        proof {
            let after = st0.edges.update(id as int, Some(e@));
            assert(edge_slots(self.edges@) =~= after);
            lemma_edge_found(
                self.outgoing,
                self.incoming,
                self.adjacency,
                st0.edges,
                id as int,
            );
            lemma_edges_kept(
                self.outgoing,
                self.incoming,
                self.adjacency,
                self.outgoing,
                self.incoming,
                self.adjacency,
                st0.edges,
                after,
                id,
            );
            lemma_sound_edge_replaced(st0, e@);
        }
    }

    /// Takes a relationship out of the graph.
    fn drop_edge(&mut self, id: EdgeId)
        requires
            old(self).valid(),
            id < old(self).store().edges.len(),
        ensures
            final(self).valid(),
            final(self).store() == store::edge_deleted(old(self).store(), id),
    {
        let ghost st0 = self.store();
        let ghost o0 = self.outgoing;
        let ghost i0 = self.incoming;
        let ghost a0 = self.adjacency;
        proof {
            assert(id < self.edges.len());
        }
        let was = self.edges[id as usize].clone();
        if let Some(e) = was {
            self.outgoing.drop_entry(e.src, id);
            self.incoming.drop_entry(e.dst, id);
            self.adjacency.drop_entry(between_key(e.src, e.label.as_str(), e.dst), id);
        }
        self.edges.set(id as usize, None);
        proof {
            let after = st0.edges.update(id as int, None);
            assert(edge_slots(self.edges@) =~= after);
            lemma_edges_kept(
                o0,
                i0,
                a0,
                self.outgoing,
                self.incoming,
                self.adjacency,
                st0.edges,
                after,
                id,
            );
            lemma_sound_edge_deleted(st0, id);
        }
    }
}

impl Default for MemoryStorage {
    fn default() -> (r: Self)
        ensures
            r.valid(),
            r.store() == store::empty_store(),
    {
        MemoryStorage::new()
    }
}

impl StorageBackend for MemoryStorage {
    closed spec fn store(&self) -> StoreV {
        StoreV {
            nodes: node_slots(self.nodes@),
            edges: edge_slots(self.edges@),
            unique: backend::text_pairs(self.unique@),
            not_null: backend::text_pairs(self.not_null@),
            node_keys: key_lists(self.node_keys@),
            prop_types: constraints::text_triples(self.prop_types@),
        }
    }

    closed spec fn valid(&self) -> bool {
        &&& sound(self.store())
        &&& self.outgoing.sorted()
        &&& self.incoming.sorted()
        &&& self.adjacency.sorted()
        &&& self.label_index.sorted()
        &&& self.property_index.sorted()
        &&& nodes_found(self.label_index, self.property_index, self.store().nodes, -1)
        &&& edges_found(self.outgoing, self.incoming, self.adjacency, self.store().edges)
    }

    proof fn lemma_valid(&self) {
        reveal(sound);
    }

    fn get_node(&self, id: NodeId) -> (r: Option<Node>) {
        match self.node_slot(id) {
            Some(n) => Some(n.clone()),
            None => None,
        }
    }

    fn get_edge(&self, id: EdgeId) -> (r: Option<Edge>) {
        match self.edge_slot(id) {
            Some(e) => Some(e.clone()),
            None => None,
        }
    }

    fn node_count(&self) -> (r: usize) {
        self.all_node_ids().len()
    }

    fn edge_count(&self) -> (r: usize) {
        self.all_edge_ids().len()
    }

    fn outgoing_edges(&self, node_id: NodeId) -> (r: Vec<Edge>) {
        let test = EdgeTest::From(node_id);
        let ids = self.outgoing_edge_ids(node_id);
        proof {
            assert(test.test() =~= |e: EdgeV| e.src == node_id);
        }
        self.edges_at(&ids, &test)
    }

    fn incoming_edges(&self, node_id: NodeId) -> (r: Vec<Edge>) {
        let test = EdgeTest::To(node_id);
        let ids = self.incoming_edge_ids(node_id);
        proof {
            assert(test.test() =~= |e: EdgeV| e.dst == node_id);
        }
        self.edges_at(&ids, &test)
    }

    fn outgoing_edge_ids(&self, node_id: NodeId) -> (r: Vec<EdgeId>) {
        let test = EdgeTest::From(node_id);
        proof {
            assert(test.test() =~= |e: EdgeV| e.src == node_id);
        }
        let cands = MemoryStorage::entries(&self.outgoing, node_id);
        proof {
            let edges = self.store().edges;
            assert forall|i: int|
                0 <= i < edges.len() && (#[trigger] edges[i] matches Some(e) && test.passes(
                    e,
                )) implies cands@.contains(i as u64) by {
                lemma_edge_found(self.outgoing, self.incoming, self.adjacency, edges, i);
            }
        }
        self.choose_edges(&cands, &test)
    }

    fn incoming_edge_ids(&self, node_id: NodeId) -> (r: Vec<EdgeId>) {
        let test = EdgeTest::To(node_id);
        proof {
            assert(test.test() =~= |e: EdgeV| e.dst == node_id);
        }
        let cands = MemoryStorage::entries(&self.incoming, node_id);
        proof {
            let edges = self.store().edges;
            assert forall|i: int|
                0 <= i < edges.len() && (#[trigger] edges[i] matches Some(e) && test.passes(
                    e,
                )) implies cands@.contains(i as u64) by {
                lemma_edge_found(self.outgoing, self.incoming, self.adjacency, edges, i);
            }
        }
        self.choose_edges(&cands, &test)
    }

    fn edges_between(&self, src: NodeId, rel_type: &str, dst: NodeId) -> (r: Vec<Edge>) {
        let test = EdgeTest::Between(src, rel_type, dst);
        proof {
            assert(test.test() =~= |e: EdgeV| e.src == src && e.label == rel_type@ && e.dst == dst);
        }
        let cands = MemoryStorage::entries(&self.adjacency, between_key(src, rel_type, dst));
        proof {
            let edges = self.store().edges;
            assert forall|i: int|
                0 <= i < edges.len() && (#[trigger] edges[i] matches Some(e) && test.passes(
                    e,
                )) implies cands@.contains(i as u64) by {
                lemma_edge_found(self.outgoing, self.incoming, self.adjacency, edges, i);
            }
        }
        let ids = self.choose_edges(&cands, &test);
        self.edges_at(&ids, &test)
    }

    fn match_nodes(&self, label: Option<&str>) -> (r: Vec<Node>) {
        let test = NodeTest::Label(label);
        proof {
            assert(test.test() =~= |n: NodeV| store::has_label(n, backend::opt_str(label)));
        }
        let cands = self.label_candidates(label);
        let ids = self.choose_nodes(&cands, &test);
        self.nodes_at(&ids, &test)
    }

    fn match_nodes_with_props(&self, label: Option<&str>, props: &PropertyMap) -> (r: Vec<Node>) {
        let test = NodeTest::Props(label, props);
        proof {
            assert(test.test() =~= |n: NodeV|
                store::has_label(n, backend::opt_str(label)) && store::has_equal_props(
                    n.properties,
                    props@,
                    0,
                ));
        }
        let cands = match self.least_list(None, props) {
            Some(v) => v,
            None => self.label_candidates(label),
        };
        let ids = self.choose_nodes(&cands, &test);
        self.nodes_at(&ids, &test)
    }

    fn find_node(&self, labels: &Vec<String>, properties: &PropertyMap) -> (r: Option<NodeId>) {
        let ids = self.find_nodes(labels, properties);
        if ids.len() > 0 {
            Some(ids[0])
        } else {
            None
        }
    }

    fn find_nodes(&self, labels: &Vec<String>, properties: &PropertyMap) -> (r: Vec<NodeId>) {
        let test = NodeTest::Pattern(labels, properties);
        proof {
            assert(test.test() =~= |n: NodeV|
                store::has_labels(n.labels, text::texts_view(labels@), 0)
                    && store::has_equal_props(n.properties, properties@, 0));
        }
        let first: Option<Vec<u64>> = if labels.len() > 0 {
            Some(self.label_candidates(Some(labels[0].as_str())))
        } else {
            None
        };
        let cands = match self.least_list(first, properties) {
            Some(v) => v,
            None => first_ids(self.nodes.len()),
        };
        self.choose_nodes(&cands, &test)
    }

    fn all_node_ids(&self) -> (r: Vec<NodeId>) {
        let test = NodeTest::Label(None);
        proof {
            assert(test.test() =~= |n: NodeV| true);
        }
        let cands = first_ids(self.nodes.len());
        self.choose_nodes(&cands, &test)
    }

    fn all_edge_ids(&self) -> (r: Vec<EdgeId>) {
        let test = EdgeTest::Any;
        proof {
            assert(test.test() =~= |e: EdgeV| true);
        }
        let cands = first_ids(self.edges.len());
        self.choose_edges(&cands, &test)
    }

    fn create_node(&mut self, labels: Vec<String>, properties: PropertyMap) -> (id: NodeId) {
        let ghost st0 = self.store();
        let ghost l0 = self.label_index;
        let ghost p0 = self.property_index;
        let id = self.nodes.len() as u64;
        enter_labels(&mut self.label_index, &labels, id);
        enter_props(&mut self.property_index, &properties, id);
        let n = Node { id, labels, properties };
        self.nodes.push(Some(n));
        proof {
            let after = st0.nodes.push(Some(n@));
            assert(node_slots(self.nodes@) =~= after);
            assert(self.nodes.len() <= usize::MAX);
            lemma_nodes_but_new(l0, p0, st0.nodes);
            lemma_node_entered(
                l0,
                p0,
                self.label_index,
                self.property_index,
                st0.nodes,
                after,
                id,
            );
            lemma_sound_node_created(st0, n@.labels, n@.properties);
        }
        id
    }

    fn create_edge(
        &mut self,
        label: String,
        src: NodeId,
        dst: NodeId,
        properties: PropertyMap,
    ) -> (r: Result<EdgeId, String>) {
        if self.node_slot(src).is_none() {
            return Err(join3("Source node ", u64_text(src).as_str(), " not found"));
        }
        if self.node_slot(dst).is_none() {
            return Err(join3("Destination node ", u64_text(dst).as_str(), " not found"));
        }
        let ghost st0 = self.store();
        let ghost o0 = self.outgoing;
        let ghost i0 = self.incoming;
        let ghost a0 = self.adjacency;
        let id = self.edges.len() as u64;
        self.outgoing.add_entry(src, id);
        self.incoming.add_entry(dst, id);
        self.adjacency.add_entry(between_key(src, label.as_str(), dst), id);
        let e = Edge { id, label, src, dst, properties };
        self.edges.push(Some(e));
        proof {
            let after = st0.edges.push(Some(e@));
            assert(edge_slots(self.edges@) =~= after);
            assert(self.edges.len() <= usize::MAX);
            lemma_edges_kept(
                o0,
                i0,
                a0,
                self.outgoing,
                self.incoming,
                self.adjacency,
                st0.edges,
                after,
                id,
            );
            lemma_sound_edge_created(st0, e@.label, src, dst, e@.properties);
        }
        Ok(id)
    }

    fn set_node_property(&mut self, id: NodeId, key: String, value: PropertyValue) {
        if let Some(n) = self.get_node(id) {
            proof {
                lemma_sound_ids(self.store(), id);
            }
            let mut properties = n.properties;
            properties.insert(key, value);
            self.replace_node(Node { id, labels: n.labels, properties });
        }
    }

    fn set_edge_property(&mut self, id: EdgeId, key: String, value: PropertyValue) {
        if let Some(e) = self.get_edge(id) {
            proof {
                lemma_sound_ids(self.store(), id);
            }
            let mut properties = e.properties;
            properties.insert(key, value);
            self.replace_edge(Edge { id, label: e.label, src: e.src, dst: e.dst, properties });
        }
    }

    fn set_node_all_properties(&mut self, id: NodeId, properties: PropertyMap) {
        if let Some(n) = self.get_node(id) {
            proof {
                lemma_sound_ids(self.store(), id);
            }
            self.replace_node(Node { id, labels: n.labels, properties });
        }
    }

    fn set_edge_all_properties(&mut self, id: EdgeId, properties: PropertyMap) {
        if let Some(e) = self.get_edge(id) {
            proof {
                lemma_sound_ids(self.store(), id);
            }
            self.replace_edge(Edge { id, label: e.label, src: e.src, dst: e.dst, properties });
        }
    }

    fn merge_node_properties(&mut self, id: NodeId, properties: PropertyMap) {
        if let Some(n) = self.get_node(id) {
            proof {
                lemma_sound_ids(self.store(), id);
            }
            let mut all = n.properties;
            all.extend(&properties);
            self.replace_node(Node { id, labels: n.labels, properties: all });
        }
    }

    fn merge_edge_properties(&mut self, id: EdgeId, properties: PropertyMap) {
        if let Some(e) = self.get_edge(id) {
            proof {
                lemma_sound_ids(self.store(), id);
            }
            let mut all = e.properties;
            all.extend(&properties);
            self.replace_edge(
                Edge { id, label: e.label, src: e.src, dst: e.dst, properties: all },
            );
        }
    }

    fn add_node_labels(&mut self, id: NodeId, labels: &Vec<String>) {
        if let Some(n) = self.get_node(id) {
            proof {
                lemma_sound_ids(self.store(), id);
            }
            let joined = join_labels(n.labels, labels);
            self.replace_node(Node { id, labels: joined, properties: n.properties });
        }
    }

    fn remove_node_property(&mut self, id: NodeId, key: &str) {
        if let Some(n) = self.get_node(id) {
            proof {
                lemma_sound_ids(self.store(), id);
            }
            let mut properties = n.properties;
            properties.remove(key);
            self.replace_node(Node { id, labels: n.labels, properties });
        }
    }

    fn remove_node_labels(&mut self, id: NodeId, labels: &Vec<String>) {
        if let Some(n) = self.get_node(id) {
            proof {
                lemma_sound_ids(self.store(), id);
            }
            let left = drop_labels(n.labels, labels);
            self.replace_node(Node { id, labels: left, properties: n.properties });
        }
    }

    fn remove_edge_property(&mut self, id: EdgeId, key: &str) {
        if let Some(e) = self.get_edge(id) {
            proof {
                lemma_sound_ids(self.store(), id);
            }
            let mut properties = e.properties;
            properties.remove(key);
            self.replace_edge(Edge { id, label: e.label, src: e.src, dst: e.dst, properties });
        }
    }

    fn delete_node(&mut self, id: NodeId, detach: bool) -> (r: Result<(), String>) {
        let ghost st0 = self.store();
        let was = match self.get_node(id) {
            None => {
                return Err(join3("Node ", u64_text(id).as_str(), " not found"));
            },
            Some(n) => n,
        };
        let out = self.outgoing_edge_ids(id);
        let inc = self.incoming_edge_ids(id);
        proof {
            lemma_sound_ids(st0, id);
            lemma_ends(st0, id);
            assert forall|i: int| 0 <= i < out.len() implies #[trigger] out@[i]
                < st0.edges.len() by {
                assert(out@.contains(out@[i]));
            }
            assert forall|i: int| 0 <= i < inc.len() implies #[trigger] inc@[i]
                < st0.edges.len() by {
                assert(inc@.contains(inc@[i]));
            }
        }
        if !detach && (out.len() > 0 || inc.len() > 0) {
            proof {
                if out.len() > 0 {
                    assert(out@.contains(out@[0]));
                    assert(st0.edges[out@[0] as int] is Some);
                } else {
                    assert(inc@.contains(inc@[0]));
                    assert(st0.edges[inc@[0] as int] is Some);
                }
            }
            return Err(
                join3(
                    "Cannot delete node ",
                    u64_text(id).as_str(),
                    " because it still has relationships. Use DETACH DELETE.",
                ),
            );
        }
        proof {
            if !detach && store::has_relationships(st0, id) {
                let i = choose|i: int|
                    0 <= i < st0.edges.len() && (#[trigger] st0.edges[i] matches Some(e)
                        && store::touches(e, id));
                assert(out@.contains(i as u64) || inc@.contains(i as u64));
            }
        }
        self.drop_edges(&out);
        self.drop_edges(&inc);
        let ghost st1 = self.store();
        proof {
            lemma_dropped_all(st0, st1, id, out@, inc@);
        }
        let ghost l0 = self.label_index;
        let ghost p0 = self.property_index;
        strike_labels(&mut self.label_index, &was.labels, id);
        strike_props(&mut self.property_index, &was.properties, id);
        proof {
            assert(id < self.nodes.len());
        }
        self.nodes.set(id as usize, None);
        proof {
            let after = st0.nodes.update(id as int, None);
            assert(node_slots(self.nodes@) =~= after);
            lemma_node_struck(l0, p0, self.label_index, self.property_index, st0.nodes, id);
            lemma_node_entered(
                self.label_index,
                self.property_index,
                self.label_index,
                self.property_index,
                st0.nodes,
                after,
                id,
            );
            assert(self.store() == store::node_deleted(st0, id));
            lemma_sound_node_deleted(st0, id);
        }
        Ok(())
    }

    fn delete_edge(&mut self, id: EdgeId) -> (r: Result<(), String>) {
        if self.edge_slot(id).is_none() {
            return Err(join3("Edge ", u64_text(id).as_str(), " not found"));
        }
        self.drop_edge(id);
        Ok(())
    }

    fn add_unique_constraint(&mut self, label: &str, property: &str) -> (r: Result<(), Refusal>) {
        let ns = self.match_nodes(Some(label));
        if let Some(m) = find_unique_conflict(&ns, label, property) {
            return Err(m);
        }
        let ghost st0 = self.store();
        add_pair(&mut self.unique, label, property);
        proof {
            assert(self.store() == store::unique_added(st0, label@, property@));
            lemma_sound_same(st0, self.store());
        }
        Ok(())
    }

    fn check_unique_constraint(&self, label: &str, property: &str, value: &PropertyValue) -> (r:
        Result<(), Refusal>) {
        if !has_text_pair(&self.unique, label, property) {
            return Ok(());
        }
        let cands = MemoryStorage::entries(&self.property_index, prop_key(property, value));
        let mut i: usize = 0;
        while i < cands.len()
            invariant
                self.valid(),
                i <= cands.len(),
                store::has_pair(self.store().unique, label@, property@),
                cands@ == self.property_index.list(index::prop_entry(property@, value@)),
                forall|j: int|
                    0 <= j < i ==> !(store::node_at(self.store(), #[trigger] cands@[j]) matches Some(
                        n,
                    ) && store::holds_value(n, label@, property@, value@)),
            decreases cands.len() - i,
        {
            if let Some(n) = self.node_slot(cands[i]) {
                if node_holds(n, label, property, value) {
                    proof {
                        assert(self.store().nodes[cands@[i as int] as int] == Some(n@));
                    }
                    return Err(
                        Refusal::Taken {
                            label: label.to_owned(),
                            property: property.to_owned(),
                            value: value.clone(),
                        },
                    );
                }
            }
            i += 1;
        }
        proof {
            self.lemma_value_free(label@, property@, value@, cands@);
        }
        Ok(())
    }

    fn list_unique_constraints(&self) -> (r: Vec<(String, String)>) {
        let mut r: Vec<(String, String)> = Vec::new();
        let mut i: usize = 0;
        while i < self.unique.len()
            invariant
                i <= self.unique.len(),
                r.len() == i,
                forall|j: int|
                    0 <= j < i ==> (#[trigger] r@[j]).0@ == self.unique@[j].0@ && r@[j].1@
                        == self.unique@[j].1@,
            decreases self.unique.len() - i,
        {
            r.push((self.unique[i].0.clone(), self.unique[i].1.clone()));
            i += 1;
        }
        proof {
            assert(backend::text_pairs(r@) =~= self.store().unique);
        }
        r
    }

    fn add_not_null_constraint(&mut self, label: &str, property: &str) -> (r: Result<(), String>) {
        let ns = self.match_nodes(Some(label));
        if let Some(m) = find_not_null_conflict(&ns, label, property) {
            return Err(m);
        }
        let ghost st0 = self.store();
        add_pair(&mut self.not_null, label, property);
        proof {
            assert(self.store() == store::not_null_added(st0, label@, property@));
            lemma_sound_same(st0, self.store());
        }
        Ok(())
    }

    fn check_not_null_constraints(&self, labels: &Vec<String>, properties: &PropertyMap) -> (r:
        Result<(), String>) {
        match find_not_null_breach(&self.not_null, labels, properties) {
            Some(m) => Err(m),
            None => Ok(()),
        }
    }

    fn add_node_key_constraint(&mut self, label: &str, properties: &Vec<String>) -> (r: Result<
        (),
        String,
    >) {
        let ns = self.match_nodes(Some(label));
        if let Some(m) = find_node_key_conflict(&ns, label, properties) {
            return Err(m);
        }
        let ghost st0 = self.store();
        self.node_keys.push((label.to_owned(), clone_texts(properties)));
        proof {
            assert(self.store().node_keys =~= st0.node_keys.push(
                (label@, text::texts_view(properties@)),
            ));
            assert(self.store() == store::node_key_added(
                st0,
                label@,
                text::texts_view(properties@),
            ));
            lemma_sound_same(st0, self.store());
        }
        Ok(())
    }

    fn check_node_key_constraints(&self, labels: &Vec<String>, properties: &PropertyMap) -> (r:
        Result<(), Refusal>) {
        let ghost want = store::node_key_breach(
            self.store(),
            text::texts_view(labels@),
            properties@,
            0,
        );
        let mut i: usize = 0;
        while i < labels.len()
            invariant
                self.valid(),
                i <= labels.len(),
                want == store::node_key_breach(
                    self.store(),
                    text::texts_view(labels@),
                    properties@,
                    0,
                ),
                want == store::node_key_breach(
                    self.store(),
                    text::texts_view(labels@),
                    properties@,
                    i as int,
                ),
            decreases labels.len() - i,
        {
            if let Some(m) = self.node_key_breach_on(labels[i].as_str(), properties) {
                return Err(m);
            }
            i += 1;
        }
        Ok(())
    }

    fn add_property_type_constraint(&mut self, label: &str, property: &str, kind: &str) -> (r:
        Result<(), String>) {
        let ns = self.match_nodes(Some(label));
        if let Some(m) = find_type_conflict(&ns, label, property, kind) {
            return Err(m);
        }
        let ghost st0 = self.store();
        set_type(&mut self.prop_types, label, property, kind);
        proof {
            assert(self.store() == store::type_added(st0, label@, property@, kind@));
            lemma_sound_same(st0, self.store());
        }
        Ok(())
    }

    fn check_property_type_constraints(&self, labels: &Vec<String>, properties: &PropertyMap) -> (r:
        Result<(), String>) {
        match find_type_breach(&self.prop_types, labels, properties) {
            Some(m) => Err(m),
            None => Ok(()),
        }
    }
}

/// The relationships at a node are those that start there and those that end
/// there.
proof fn lemma_ends(st: StoreV, id: u64)
    requires
        st.edges.len() <= u64::MAX,
    ensures
        forall|x: u64| #[trigger]
            store::outgoing_ids(st, id).contains(x) <==> x < st.edges.len() && (
            st.edges[x as int] matches Some(e) && e.src == id),
        forall|x: u64| #[trigger]
            store::incoming_ids(st, id).contains(x) <==> x < st.edges.len() && (
            st.edges[x as int] matches Some(e) && e.dst == id),
{
    index::lemma_chosen_ids(st.edges, |e: EdgeV| e.src == id, st.edges.len() as int);
    index::lemma_chosen_ids(st.edges, |e: EdgeV| e.dst == id, st.edges.len() as int);
}

/// The graph without the relationships with some identifiers.
spec fn is_without(st0: StoreV, st: StoreV, ids: Seq<u64>, n: int) -> bool {
    &&& st.nodes == st0.nodes
    &&& st.unique == st0.unique
    &&& st.not_null == st0.not_null
    &&& st.node_keys == st0.node_keys
    &&& st.prop_types == st0.prop_types
    &&& st.edges.len() == st0.edges.len()
    &&& forall|x: int|
        #![trigger st.edges[x]]
        0 <= x < st.edges.len() ==> if ids.take(n).contains(x as u64) {
            st.edges[x] is None
        } else {
            st.edges[x] == st0.edges[x]
        }
}

proof fn lemma_dropped_all(st0: StoreV, st1: StoreV, id: u64, out: Seq<u64>, inc: Seq<u64>)
    requires
        st0.edges.len() <= u64::MAX,
        out == store::outgoing_ids(st0, id),
        inc == store::incoming_ids(st0, id),
        exists|mid: StoreV|
            is_without(st0, mid, out, out.len() as int) && #[trigger] is_without(
                mid,
                st1,
                inc,
                inc.len() as int,
            ),
    ensures
        st1 == store::detached(st0, id),
        forall|i: int|
            0 <= i < st1.edges.len() ==> (#[trigger] st1.edges[i] matches Some(e)
                ==> !store::touches(e, id)),
{
    let mid = choose|mid: StoreV|
        is_without(st0, mid, out, out.len() as int) && #[trigger] is_without(
            mid,
            st1,
            inc,
            inc.len() as int,
        );
    lemma_ends(st0, id);
    assert(out.take(out.len() as int) =~= out);
    assert(inc.take(inc.len() as int) =~= inc);
    let want = store::detached(st0, id);
    assert forall|x: int| 0 <= x < want.edges.len() implies want.edges[x] == st1.edges[x] by {
        assert(mid.edges[x] == mid.edges[x]);
        assert(st0.edges[x] == st0.edges[x]);
        assert(out.contains(x as u64) <==> (st0.edges[x] matches Some(e) && e.src == id));
        assert(inc.contains(x as u64) <==> (st0.edges[x] matches Some(e) && e.dst == id));
    }
    assert(want.edges =~= st1.edges);
}

impl MemoryStorage {
    fn drop_edges(&mut self, ids: &Vec<EdgeId>)
        requires
            old(self).valid(),
            forall|i: int| 0 <= i < ids.len() ==> #[trigger] ids@[i] < old(self).store().edges.len(),
        ensures
            final(self).valid(),
            is_without(old(self).store(), final(self).store(), ids@, ids.len() as int),
    {
        let ghost st0 = self.store();
        proof {
            assert(ids@.take(0) =~= Seq::<u64>::empty());
        }
        let mut i: usize = 0;
        while i < ids.len()
            invariant
                self.valid(),
                st0 == old(self).store(),
                i <= ids.len(),
                forall|j: int| 0 <= j < ids.len() ==> #[trigger] ids@[j] < st0.edges.len(),
                is_without(st0, self.store(), ids@, i as int),
            decreases ids.len() - i,
        {
            let ghost st1 = self.store();
            self.drop_edge(ids[i]);
            proof {
                let st = self.store();
                lemma_sound_ids(st, 0);
                let now = ids@.take(i as int + 1);
                let before = ids@.take(i as int);
                assert(now =~= before.push(ids@[i as int]));
                assert forall|x: int|
                    #![trigger st.edges[x]]
                    0 <= x < st.edges.len() implies if now.contains(x as u64) {
                    st.edges[x] is None
                } else {
                    st.edges[x] == st0.edges[x]
                } by {
                    assert(st1.edges[x] == st1.edges[x]);
                    if before.contains(x as u64) {
                        let k = choose|k: int| 0 <= k < before.len() && before[k] == x as u64;
                        assert(now[k] == x as u64);
                    }
                    if x as u64 == ids@[i as int] {
                        assert(now[i as int] == x as u64);
                    }
                    if now.contains(x as u64) {
                        let k = choose|k: int| 0 <= k < now.len() && now[k] == x as u64;
                        if k < before.len() {
                            assert(before[k] == x as u64);
                        }
                    }
                }
            }
            i += 1;
        }
    }

    /// Candidates for the nodes with a label.
    fn label_candidates(&self, label: Option<&str>) -> (r: Vec<u64>)
        requires
            self.valid(),
        ensures
            index::ordered(r@),
            forall|i: int|
                0 <= i < self.store().nodes.len() && (#[trigger] self.store().nodes[i] matches Some(
                    n,
                ) && store::has_label(n, backend::opt_str(label))) ==> r@.contains(i as u64),
    {
        match label {
            None => {
                let r = first_ids(self.nodes.len());
                r
            },
            Some(l) => {
                let r = MemoryStorage::entries(&self.label_index, key_of_text(1, l));
                proof {
                    let st = self.store();
                    assert forall|i: int|
                        0 <= i < st.nodes.len() && (#[trigger] st.nodes[i] matches Some(n)
                            && store::has_label(n, Some(l@))) implies r@.contains(i as u64) by {
                        let n = st.nodes[i].unwrap();
                        lemma_node_found(self.label_index, self.property_index, st.nodes, i);
                        assert(n.labels.contains(l@));
                        let j = choose|j: int| 0 <= j < n.labels.len() && n.labels[j] == l@;
                        assert(self.label_index.has(
                            index::label_entry(n.labels[j]),
                            i as u64,
                        ));
                    }
                }
                r
            },
        }
    }

    /// The shortest of a first list and the lists of nodes with a property.
    fn least_list(&self, first: Option<Vec<u64>>, props: &PropertyMap) -> (r: Option<Vec<u64>>)
        requires
            self.valid(),
            first matches Some(v) ==> index::ordered(v@),
        ensures
            r is None ==> first is None,
            r matches Some(v) ==> index::ordered(v@) && (first == Some(v) || forall|i: int|
                0 <= i < self.store().nodes.len() && (#[trigger] self.store().nodes[i] matches Some(
                    n,
                ) && store::has_equal_props(n.properties, props@, 0)) ==> v@.contains(i as u64)),
    {
        let mut best = first;
        let mut i: usize = 0;
        while i < props.entries.len()
            invariant
                self.valid(),
                i <= props.entries.len(),
                best is None ==> first is None,
                best matches Some(v) ==> index::ordered(v@) && (first == Some(v) || forall|k: int|
                    0 <= k < self.store().nodes.len() && (
                    #[trigger] self.store().nodes[k] matches Some(n) && store::has_equal_props(
                        n.properties,
                        props@,
                        0,
                    )) ==> v@.contains(k as u64)),
            decreases props.entries.len() - i,
        {
            let k = prop_key(props.entries[i].0.as_str(), &props.entries[i].1);
            let size = match self.property_index.get(k) {
                Some(v) => v.len(),
                None => 0,
            };
            let better = match &best {
                Some(b) => size < b.len(),
                None => true,
            };
            if better {
                let v = MemoryStorage::entries(&self.property_index, k);
                proof {
                    let st = self.store();
                    assert forall|j: int|
                        0 <= j < st.nodes.len() && (#[trigger] st.nodes[j] matches Some(n)
                            && store::has_equal_props(
                            n.properties,
                            props@,
                            0,
                        )) implies v@.contains(j as u64) by {
                        let n = st.nodes[j].unwrap();
                        lemma_node_found(self.label_index, self.property_index, st.nodes, j);
                        lemma_equal_props(n.properties, props@, 0, i as int);
                        assoc::lemma_position(n.properties, props@[i as int].0, 0);
                        let p = assoc::position(n.properties, props@[i as int].0).unwrap();
                        lemma_equal_entries(
                            props@[i as int].0,
                            n.properties[p].1,
                            props@[i as int].1,
                        );
                        assert(self.property_index.has(
                            index::prop_entry(n.properties[p].0, n.properties[p].1),
                            j as u64,
                        ));
                    }
                }
                best = Some(v);
            }
            i += 1;
        }
        best
    }

    /// Where none of the candidates holds a value, no node does.
    proof fn lemma_value_free(&self, label: Seq<char>, p: Seq<char>, v: PropV, cands: Seq<u64>)
        requires
            self.valid(),
            cands == self.property_index.list(index::prop_entry(p, v)),
            forall|j: int|
                0 <= j < cands.len() ==> !(store::node_at(self.store(), #[trigger] cands[j]) matches Some(
                    n,
                ) && store::holds_value(n, label, p, v)),
        ensures
            store::unique_breach(self.store(), label, p, v) is None,
    {
        let st = self.store();
        lemma_sound_ids(st, 0);
        assert forall|k: int|
            0 <= k < st.nodes.len() implies !(#[trigger] st.nodes[k] matches Some(n)
            && store::holds_value(n, label, p, v)) by {
            if let Some(n) = st.nodes[k] {
                if store::holds_value(n, label, p, v) {
                    lemma_node_found(self.label_index, self.property_index, st.nodes, k);
                    assoc::lemma_position(n.properties, p, 0);
                    let q = assoc::position(n.properties, p).unwrap();
                    assert(n.properties[q] == (p, v));
                    assert(self.property_index.has(
                        index::prop_entry(n.properties[q].0, n.properties[q].1),
                        k as u64,
                    ));
                    let j = choose|j: int| 0 <= j < cands.len() && cands[j] == k as u64;
                    assert(store::node_at(st, cands[j]) == Some(n));
                }
            }
        }
    }

    fn node_key_breach_on(&self, label: &str, properties: &PropertyMap) -> (r: Option<Refusal>)
        requires
            self.valid(),
        ensures
            constraints::opt_refusal(r) == store::node_key_breach_of(
                self.store(),
                label@,
                properties@,
                0,
            ),
    {
        let ghost st = self.store();
        let mut j: usize = 0;
        while j < self.node_keys.len()
            invariant
                self.valid(),
                st == self.store(),
                j <= self.node_keys.len(),
                store::node_key_breach_of(st, label@, properties@, 0) == store::node_key_breach_of(
                    st,
                    label@,
                    properties@,
                    j as int,
                ),
            decreases self.node_keys.len() - j,
        {
            proof {
                assert(st.node_keys[j as int] == (
                    self.node_keys@[j as int].0@,
                    text::texts_view(self.node_keys@[j as int].1@),
                ));
            }
            if same_text(self.node_keys[j].0.as_str(), label) {
                let ns = self.match_nodes(Some(label));
                if let Some(m) = find_key_breach(&ns, label, properties, &self.node_keys[j].1) {
                    return Some(m);
                }
            }
            j += 1;
        }
        None
    }
}

fn node_holds(n: &Node, label: &str, p: &str, v: &PropertyValue) -> (r: bool)
    ensures
        r == store::holds_value(n@, label@, p@, v@),
{
    if !list_has(&n.labels, label) {
        return false;
    }
    match n.properties.get(p) {
        Some(w) => same_property(w, v) && crate::merges::equal_properties(v, v),
        None => false,
    }
}

fn has_text_pair(s: &Vec<(String, String)>, a: &str, b: &str) -> (r: bool)
    ensures
        r == store::has_pair(backend::text_pairs(s@), a@, b@),
{
    let mut i: usize = 0;
    while i < s.len()
        invariant
            i <= s.len(),
            forall|j: int| 0 <= j < i ==> #[trigger] backend::text_pairs(s@)[j] != (a@, b@),
        decreases s.len() - i,
    {
        if same_text(s[i].0.as_str(), a) && same_text(s[i].1.as_str(), b) {
            proof {
                assert(backend::text_pairs(s@)[i as int] == (a@, b@));
            }
            return true;
        }
        i += 1;
    }
    false
}

fn add_pair(s: &mut Vec<(String, String)>, a: &str, b: &str)
    ensures
        backend::text_pairs(final(s)@) == store::pair_added(
            backend::text_pairs(old(s)@),
            a@,
            b@,
        ),
{
    if !has_text_pair(s, a, b) {
        s.push((a.to_owned(), b.to_owned()));
        proof {
            assert(backend::text_pairs(s@) =~= backend::text_pairs(old(s)@).push((a@, b@)));
        }
    }
}

fn set_type(s: &mut Vec<(String, String, String)>, label: &str, p: &str, name: &str)
    ensures
        constraints::text_triples(final(s)@) == (match store::type_slot(
            constraints::text_triples(old(s)@),
            label@,
            p@,
            0,
        ) {
            Some(i) => constraints::text_triples(old(s)@).update(i, (label@, p@, name@)),
            None => constraints::text_triples(old(s)@).push((label@, p@, name@)),
        }),
{
    let ghost ts = constraints::text_triples(s@);
    let mut i: usize = 0;
    while i < s.len()
        invariant
            s@ == old(s)@,
            ts == constraints::text_triples(s@),
            i <= s.len(),
            store::type_slot(ts, label@, p@, 0) == store::type_slot(ts, label@, p@, i as int),
        decreases s.len() - i,
    {
        proof {
            assert(ts[i as int] == (s@[i as int].0@, s@[i as int].1@, s@[i as int].2@));
        }
        if same_text(s[i].0.as_str(), label) && same_text(s[i].1.as_str(), p) {
            s.set(i, (label.to_owned(), p.to_owned(), name.to_owned()));
            proof {
                assert(constraints::text_triples(s@) =~= ts.update(
                    i as int,
                    (label@, p@, name@),
                ));
            }
            return ;
        }
        i += 1;
    }
    s.push((label.to_owned(), p.to_owned(), name.to_owned()));
    proof {
        assert(constraints::text_triples(s@) =~= ts.push((label@, p@, name@)));
    }
}

fn join_labels(labels: Vec<String>, more: &Vec<String>) -> (r: Vec<String>)
    ensures
        text::texts_view(r@) == store::labels_joined(
            text::texts_view(labels@),
            text::texts_view(more@),
            0,
        ),
{
    let ghost first = text::texts_view(labels@);
    let mut r = labels;
    let mut i: usize = 0;
    while i < more.len()
        invariant
            i <= more.len(),
            first == text::texts_view(labels@),
            store::labels_joined(first, text::texts_view(more@), 0) == store::labels_joined(
                text::texts_view(r@),
                text::texts_view(more@),
                i as int,
            ),
        decreases more.len() - i,
    {
        if !list_has(&r, more[i].as_str()) {
            let x = more[i].clone();
            proof {
                assert(text::texts_view(r@.push(x)) =~= text::texts_view(r@).push(x@));
            }
            r.push(x);
        }
        i += 1;
    }
    r
}

fn drop_label(labels: &Vec<String>, l: &str) -> (r: Vec<String>)
    ensures
        text::texts_view(r@) == store::label_dropped(text::texts_view(labels@), l@),
{
    let ghost all = text::texts_view(labels@);
    let mut r: Vec<String> = Vec::new();
    let mut i: usize = 0;
    proof {
        assert(all.take(0) =~= Seq::<Seq<char>>::empty());
        assert(text::texts_view(r@) =~= Seq::<Seq<char>>::empty());
    }
    while i < labels.len()
        invariant
            i <= labels.len(),
            all == text::texts_view(labels@),
            text::texts_view(r@) == store::label_dropped(all.take(i as int), l@),
        decreases labels.len() - i,
    {
        proof {
            assert(all.take(i as int + 1).drop_last() =~= all.take(i as int));
            assert(all.take(i as int + 1).last() == labels@[i as int]@);
        }
        if !same_text(labels[i].as_str(), l) {
            let x = labels[i].clone();
            proof {
                assert(text::texts_view(r@.push(x)) =~= text::texts_view(r@).push(x@));
            }
            r.push(x);
        }
        i += 1;
    }
    proof {
        assert(all.take(all.len() as int) =~= all);
    }
    r
}

fn drop_labels(labels: Vec<String>, less: &Vec<String>) -> (r: Vec<String>)
    ensures
        text::texts_view(r@) == store::labels_dropped(
            text::texts_view(labels@),
            text::texts_view(less@),
            0,
        ),
{
    let ghost first = text::texts_view(labels@);
    let mut r = labels;
    let mut i: usize = 0;
    while i < less.len()
        invariant
            i <= less.len(),
            first == text::texts_view(labels@),
            store::labels_dropped(first, text::texts_view(less@), 0) == store::labels_dropped(
                text::texts_view(r@),
                text::texts_view(less@),
                i as int,
            ),
        decreases less.len() - i,
    {
        r = drop_label(&r, less[i].as_str());
        i += 1;
    }
    r
}

} // verus!
