//! The contents of a storage in memory, to be kept elsewhere and restored.
use crate::backend::{self, StorageBackend};
use crate::constraints;
use crate::memory::{self, MemoryStorage};
use crate::store::{self, StoreV};
use crate::text::{self, clone_texts};
use crate::value::{Edge, Node};
use vstd::prelude::*;

verus! {

/// All that a storage holds.
#[derive(Debug, PartialEq)]
pub struct Snapshot {
    pub nodes: Vec<Option<Node>>,
    pub edges: Vec<Option<Edge>>,
    pub unique: Vec<(String, String)>,
    pub not_null: Vec<(String, String)>,
    pub node_keys: Vec<(String, Vec<String>)>,
    pub prop_types: Vec<(String, String, String)>,
}

impl Snapshot {
    pub open spec fn view(&self) -> StoreV {
        StoreV {
            nodes: memory::node_slots(self.nodes@),
            edges: memory::edge_slots(self.edges@),
            unique: backend::text_pairs(self.unique@),
            not_null: backend::text_pairs(self.not_null@),
            node_keys: memory::key_lists(self.node_keys@),
            prop_types: constraints::text_triples(self.prop_types@),
        }
    }
}

fn clone_node_slots(v: &Vec<Option<Node>>) -> (r: Vec<Option<Node>>)
    ensures
        memory::node_slots(r@) == memory::node_slots(v@),
{
    let mut out: Vec<Option<Node>> = Vec::new();
    let mut i: usize = 0;
    while i < v.len()
        invariant
            i <= v.len(),
            out@.len() == i,
            forall|j: int|
                0 <= j < i ==> backend::opt_node(#[trigger] out@[j]) == backend::opt_node(v@[j]),
        decreases v.len() - i,
    {
        let slot = match &v[i] {
            Some(n) => Some(n.clone()),
            None => None,
        };
        out.push(slot);
        i += 1;
    }
    proof {
        assert(memory::node_slots(out@) =~= memory::node_slots(v@));
    }
    out
}

fn clone_edge_slots(v: &Vec<Option<Edge>>) -> (r: Vec<Option<Edge>>)
    ensures
        memory::edge_slots(r@) == memory::edge_slots(v@),
{
    let mut out: Vec<Option<Edge>> = Vec::new();
    let mut i: usize = 0;
    while i < v.len()
        invariant
            i <= v.len(),
            out@.len() == i,
            forall|j: int|
                0 <= j < i ==> backend::opt_edge(#[trigger] out@[j]) == backend::opt_edge(v@[j]),
        decreases v.len() - i,
    {
        let slot = match &v[i] {
            Some(e) => Some(e.clone()),
            None => None,
        };
        out.push(slot);
        i += 1;
    }
    proof {
        assert(memory::edge_slots(out@) =~= memory::edge_slots(v@));
    }
    out
}

fn clone_pairs(v: &Vec<(String, String)>) -> (r: Vec<(String, String)>)
    ensures
        backend::text_pairs(r@) == backend::text_pairs(v@),
{
    let mut out: Vec<(String, String)> = Vec::new();
    let mut i: usize = 0;
    while i < v.len()
        invariant
            i <= v.len(),
            out@.len() == i,
            forall|j: int|
                0 <= j < i ==> (#[trigger] out@[j]).0@ == v@[j].0@ && out@[j].1@ == v@[j].1@,
        decreases v.len() - i,
    {
        out.push((v[i].0.clone(), v[i].1.clone()));
        i += 1;
    }
    proof {
        assert(backend::text_pairs(out@) =~= backend::text_pairs(v@));
    }
    out
}

fn clone_key_lists(v: &Vec<(String, Vec<String>)>) -> (r: Vec<(String, Vec<String>)>)
    ensures
        memory::key_lists(r@) == memory::key_lists(v@),
{
    let mut out: Vec<(String, Vec<String>)> = Vec::new();
    let mut i: usize = 0;
    while i < v.len()
        invariant
            i <= v.len(),
            out@.len() == i,
            forall|j: int|
                0 <= j < i ==> (#[trigger] out@[j]).0@ == v@[j].0@ && text::texts_view(out@[j].1@)
                    == text::texts_view(v@[j].1@),
        decreases v.len() - i,
    {
        out.push((v[i].0.clone(), clone_texts(&v[i].1)));
        i += 1;
    }
    proof {
        assert(memory::key_lists(out@) =~= memory::key_lists(v@));
    }
    out
}

fn clone_triples(v: &Vec<(String, String, String)>) -> (r: Vec<(String, String, String)>)
    ensures
        constraints::text_triples(r@) == constraints::text_triples(v@),
{
    let mut out: Vec<(String, String, String)> = Vec::new();
    let mut i: usize = 0;
    while i < v.len()
        invariant
            i <= v.len(),
            out@.len() == i,
            forall|j: int|
                0 <= j < i ==> (#[trigger] out@[j]).0@ == v@[j].0@ && out@[j].1@ == v@[j].1@
                    && out@[j].2@ == v@[j].2@,
        decreases v.len() - i,
    {
        out.push((v[i].0.clone(), v[i].1.clone(), v[i].2.clone()));
        i += 1;
    }
    proof {
        assert(constraints::text_triples(out@) =~= constraints::text_triples(v@));
    }
    out
}

/// Takes all that a storage holds.
pub fn take(storage: &MemoryStorage) -> (r: Snapshot)
    requires
        storage.valid(),
    ensures
        r@ == storage.store(),
        store::well_formed(r@),
{
    proof {
        storage.lemma_valid();
    }
    Snapshot {
        nodes: clone_node_slots(storage.nodes()),
        edges: clone_edge_slots(storage.edges()),
        unique: storage.list_unique_constraints(),
        not_null: clone_pairs(storage.not_null_constraints()),
        node_keys: clone_key_lists(storage.node_key_constraints()),
        prop_types: clone_triples(storage.property_type_constraints()),
    }
}

/// Restores a storage. Refused exactly where an identifier is not a position
/// or an end of a relationship is missing.
pub fn restore(s: &Snapshot) -> (r: Option<MemoryStorage>)
    ensures
        r is Some == store::well_formed(s@),
        r matches Some(m) ==> m.valid() && m.store() == s@,
{
    let mut m = MemoryStorage::new();
    if !restore_nodes(s, &mut m) {
        return None;
    }
    if !restore_edges(s, &mut m) {
        return None;
    }
    m.set_constraints(
        clone_pairs(&s.unique),
        clone_pairs(&s.not_null),
        clone_key_lists(&s.node_keys),
        clone_triples(&s.prop_types),
    );
    proof {
        assert(m.store() == s@);
        m.lemma_valid();
    }
    Some(m)
}

fn restore_nodes(s: &Snapshot, m: &mut MemoryStorage) -> (r: bool)
    requires
        old(m).valid(),
        old(m).store() == store::empty_store(),
    ensures
        final(m).valid(),
        r ==> final(m).store() == (StoreV { nodes: s@.nodes, ..store::empty_store() }),
        !r ==> !store::well_formed(s@),
{
    proof {
        assert(s@.nodes.take(0) =~= Seq::empty());
    }
    let mut i: usize = 0;
    while i < s.nodes.len()
        invariant
            i <= s.nodes.len(),
            m.valid(),
            m.store() == (StoreV { nodes: s@.nodes.take(i as int), ..store::empty_store() }),
        decreases s.nodes.len() - i,
    {
        let ghost st = m.store();
        proof {
            assert(s@.nodes[i as int] == backend::opt_node(s.nodes@[i as int]));
            assert(s@.nodes.take(i as int + 1) =~= s@.nodes.take(i as int).push(
                s@.nodes[i as int],
            ));
        }
        match &s.nodes[i] {
            Some(n) => {
                if n.id != i as u64 {
                    return false;
                }
                m.create_node(clone_texts(&n.labels), n.properties.clone());
                proof {
                    assert(st.nodes.len() == i);
                    assert(m.store() == store::node_created(st, n@.labels, n@.properties));
                }
            },
            None => {
                m.skip_node();
            },
        }
        i += 1;
    }
    proof {
        assert(s@.nodes.take(s@.nodes.len() as int) =~= s@.nodes);
    }
    true
}

fn restore_edges(s: &Snapshot, m: &mut MemoryStorage) -> (r: bool)
    requires
        old(m).valid(),
        old(m).store() == (StoreV { nodes: s@.nodes, ..store::empty_store() }),
    ensures
        final(m).valid(),
        r ==> final(m).store() == (StoreV {
            nodes: s@.nodes,
            edges: s@.edges,
            ..store::empty_store()
        }),
        !r ==> !store::well_formed(s@),
{
    proof {
        assert(s@.edges.take(0) =~= Seq::empty());
    }
    let mut i: usize = 0;
    while i < s.edges.len()
        invariant
            i <= s.edges.len(),
            m.valid(),
            m.store() == (StoreV {
                nodes: s@.nodes,
                edges: s@.edges.take(i as int),
                ..store::empty_store()
            }),
        decreases s.edges.len() - i,
    {
        let ghost st = m.store();
        proof {
            assert(s@.edges[i as int] == backend::opt_edge(s.edges@[i as int]));
            assert(s@.edges.take(i as int + 1) =~= s@.edges.take(i as int).push(
                s@.edges[i as int],
            ));
        }
        match &s.edges[i] {
            Some(e) => {
                if e.id != i as u64 {
                    return false;
                }
                proof {
                    assert(store::node_at(st, e.src) == store::node_at(s@, e.src));
                    assert(store::node_at(st, e.dst) == store::node_at(s@, e.dst));
                }
                let made = m.create_edge(e.label.clone(), e.src, e.dst, e.properties.clone());
                if made.is_err() {
                    return false;
                }
                proof {
                    assert(st.edges.len() == i);
                    assert(m.store() == store::edge_created(
                        st,
                        e@.label,
                        e.src,
                        e.dst,
                        e@.properties,
                    ));
                }
            },
            None => {
                m.skip_edge();
            },
        }
        i += 1;
    }
    proof {
        assert(s@.edges.take(s@.edges.len() as int) =~= s@.edges);
    }
    true
}

} // verus!
