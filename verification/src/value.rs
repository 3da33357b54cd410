//! Graph data and query values.
//!
//! Every type here has a view: the same data over mathematical sequences.
//! Floating-point numbers are held as their IEEE 754 bits.
use crate::assoc;
use crate::text::{self, clone_texts, same_text};
use vstd::prelude::*;

verus! {

pub type NodeId = u64;

pub type EdgeId = u64;

/// A value that a node or a relationship can hold as a property.
#[derive(Debug)]
pub enum PropertyValue {
    String(String),
    Int(i64),
    /// The bits of a floating-point number.
    Float(u64),
    Bool(bool),
}

/// The view of a `PropertyValue`.
pub enum PropV {
    Str(Seq<char>),
    Int(i64),
    Float(u64),
    Bool(bool),
}

impl PropertyValue {
    pub open spec fn view(&self) -> PropV {
        match self {
            PropertyValue::String(s) => PropV::Str(s@),
            PropertyValue::Int(i) => PropV::Int(*i),
            PropertyValue::Float(f) => PropV::Float(*f),
            PropertyValue::Bool(b) => PropV::Bool(*b),
        }
    }
}

impl Clone for PropertyValue {
    fn clone(&self) -> (r: Self)
        ensures
            r@ == self@,
    {
        match self {
            PropertyValue::String(s) => PropertyValue::String(s.clone()),
            PropertyValue::Int(i) => PropertyValue::Int(*i),
            PropertyValue::Float(f) => PropertyValue::Float(*f),
            PropertyValue::Bool(b) => PropertyValue::Bool(*b),
        }
    }
}

/// The properties of a node or a relationship, in the order in which their
/// keys came.
#[derive(Debug)]
pub struct PropertyMap {
    pub entries: Vec<(String, PropertyValue)>,
}

/// The view of property entries.
pub type PropsV = Seq<(Seq<char>, PropV)>;

pub open spec fn props_view(s: Seq<(String, PropertyValue)>) -> PropsV {
    Seq::new(s.len(), |i: int| (s[i].0@, s[i].1@))
}

impl PropertyMap {
    pub open spec fn view(&self) -> PropsV {
        props_view(self.entries@)
    }

    pub fn new() -> (r: Self)
        ensures
            r@ == PropsV::empty(),
    {
        let r = PropertyMap { entries: Vec::new() };
        proof {
            assert(r@ =~= PropsV::empty());
        }
        r
    }

    fn find(&self, k: &str) -> (r: Option<usize>)
        ensures
            match r {
                Some(i) => i < self.entries.len() && assoc::position(self@, k@) == Some(i as int),
                None => assoc::position(self@, k@) is None,
            },
    {
        let mut i: usize = 0;
        while i < self.entries.len()
            invariant
                i <= self.entries.len(),
                assoc::position(self@, k@) == assoc::position_from(self@, k@, i as int),
            decreases self.entries.len() - i,
        {
            if same_text(self.entries[i].0.as_str(), k) {
                return Some(i);
            }
            i += 1;
        }
        None
    }

    /// The value of a property.
    pub fn get(&self, k: &str) -> (r: Option<&PropertyValue>)
        ensures
            match r {
                Some(v) => assoc::lookup(self@, k@) == Some(v@),
                None => assoc::lookup(self@, k@) is None,
            },
    {
        match self.find(k) {
            Some(i) => Some(&self.entries[i].1),
            None => None,
        }
    }

    pub fn contains_key(&self, k: &str) -> (r: bool)
        ensures
            r == (assoc::lookup(self@, k@) is Some),
    {
        self.find(k).is_some()
    }

    /// Gives a property a value.
    pub fn insert(&mut self, k: String, v: PropertyValue)
        ensures
            final(self)@ == assoc::bind(old(self)@, k@, v@),
    {
        match self.find(k.as_str()) {
            Some(i) => {
                self.entries.set(i, (k, v));
                proof {
                    assert(self@ =~= old(self)@.update(i as int, (k@, v@)));
                }
            },
            None => {
                self.entries.push((k, v));
                proof {
                    assert(self@ =~= old(self)@.push((k@, v@)));
                }
            },
        }
    }

    /// Takes a property away.
    pub fn remove(&mut self, k: &str)
        ensures
            final(self)@ == assoc::unbind(old(self)@, k@),
    {
        let mut out: Vec<(String, PropertyValue)> = Vec::new();
        let mut i: usize = 0;
        proof {
            assert(self@.take(0) =~= PropsV::empty());
            assert(props_view(out@) =~= PropsV::empty());
        }
        while i < self.entries.len()
            invariant
                i <= self.entries.len(),
                props_view(out@) == assoc::unbind(self@.take(i as int), k@),
            decreases self.entries.len() - i,
        {
            proof {
                assert(self@.take(i as int + 1).drop_last() =~= self@.take(i as int));
                assert(self@.take(i as int + 1).last() == self@[i as int]);
            }
            if !same_text(self.entries[i].0.as_str(), k) {
                let ghost before = props_view(out@);
                let key = self.entries[i].0.clone();
                let val = self.entries[i].1.clone();
                out.push((key, val));
                proof {
                    assert(props_view(out@) =~= before.push(self@[i as int]));
                }
            }
            i += 1;
        }
        proof {
            assert(self@.take(self@.len() as int) =~= self@);
        }
        self.entries = out;
    }

    /// Gives each property of another map the value that it has there.
    pub fn extend(&mut self, other: &PropertyMap)
        ensures
            final(self)@ == assoc::bind_all(old(self)@, other@),
    {
        let mut i: usize = 0;
        while i < other.entries.len()
            invariant
                i <= other.entries.len(),
                assoc::bind_all(old(self)@, other@) == assoc::bind_all_from(self@, other@, i as int),
            decreases other.entries.len() - i,
        {
            let k = other.entries[i].0.clone();
            let v = other.entries[i].1.clone();
            self.insert(k, v);
            i += 1;
        }
    }
}

impl Clone for PropertyMap {
    fn clone(&self) -> (r: Self)
        ensures
            r@ == self@,
    {
        let mut out: Vec<(String, PropertyValue)> = Vec::new();
        let mut i: usize = 0;
        while i < self.entries.len()
            invariant
                i <= self.entries.len(),
                out@.len() == i,
                forall|j: int|
                    0 <= j < i ==> (#[trigger] out@[j]).0@ == self.entries@[j].0@ && out@[j].1@
                        == self.entries@[j].1@,
            decreases self.entries.len() - i,
        {
            let k = self.entries[i].0.clone();
            let v = self.entries[i].1.clone();
            out.push((k, v));
            i += 1;
        }
        let r = PropertyMap { entries: out };
        proof {
            assert(r@ =~= self@);
        }
        r
    }
}

impl Default for PropertyMap {
    fn default() -> (r: Self)
        ensures
            r@ == PropsV::empty(),
    {
        PropertyMap::new()
    }
}

/// A node of the graph.
#[derive(Debug)]
pub struct Node {
    pub id: NodeId,
    pub labels: Vec<String>,
    pub properties: PropertyMap,
}

/// The view of a `Node`.
pub struct NodeV {
    pub id: u64,
    pub labels: Seq<Seq<char>>,
    pub properties: PropsV,
}

impl Node {
    pub open spec fn view(&self) -> NodeV {
        NodeV { id: self.id, labels: text::texts_view(self.labels@), properties: self.properties@ }
    }
}

impl Clone for Node {
    fn clone(&self) -> (r: Self)
        ensures
            r@ == self@,
    {
        Node {
            id: self.id,
            labels: clone_texts(&self.labels),
            properties: self.properties.clone(),
        }
    }
}

/// A relationship of the graph, from `src` to `dst`.
#[derive(Debug)]
pub struct Edge {
    pub id: EdgeId,
    pub label: String,
    pub src: NodeId,
    pub dst: NodeId,
    pub properties: PropertyMap,
}

/// The view of an `Edge`.
pub struct EdgeV {
    pub id: u64,
    pub label: Seq<char>,
    pub src: u64,
    pub dst: u64,
    pub properties: PropsV,
}

impl Edge {
    pub open spec fn view(&self) -> EdgeV {
        EdgeV {
            id: self.id,
            label: self.label@,
            src: self.src,
            dst: self.dst,
            properties: self.properties@,
        }
    }
}

impl Clone for Edge {
    fn clone(&self) -> (r: Self)
        ensures
            r@ == self@,
    {
        Edge {
            id: self.id,
            label: self.label.clone(),
            src: self.src,
            dst: self.dst,
            properties: self.properties.clone(),
        }
    }
}

/// A path through the graph: its nodes, and the relationships between them.
#[derive(Debug)]
pub struct Path {
    pub nodes: Vec<Node>,
    pub relationships: Vec<Edge>,
}

/// The view of a `Path`.
pub struct PathV {
    pub nodes: Seq<NodeV>,
    pub relationships: Seq<EdgeV>,
}

pub open spec fn nodes_view(s: Seq<Node>) -> Seq<NodeV> {
    Seq::new(s.len(), |i: int| s[i]@)
}

pub open spec fn edges_view(s: Seq<Edge>) -> Seq<EdgeV> {
    Seq::new(s.len(), |i: int| s[i]@)
}

impl Path {
    pub open spec fn view(&self) -> PathV {
        PathV { nodes: nodes_view(self.nodes@), relationships: edges_view(self.relationships@) }
    }
}

pub fn clone_nodes(v: &Vec<Node>) -> (r: Vec<Node>)
    ensures
        nodes_view(r@) == nodes_view(v@),
{
    let mut r: Vec<Node> = Vec::new();
    let mut i: usize = 0;
    while i < v.len()
        invariant
            i <= v.len(),
            r@.len() == i,
            forall|j: int| 0 <= j < i ==> (#[trigger] r@[j])@ == v@[j]@,
        decreases v.len() - i,
    {
        let n = v[i].clone();
        r.push(n);
        i += 1;
    }
    proof {
        assert(nodes_view(r@) =~= nodes_view(v@));
    }
    r
}

pub fn clone_edges(v: &Vec<Edge>) -> (r: Vec<Edge>)
    ensures
        edges_view(r@) == edges_view(v@),
{
    let mut r: Vec<Edge> = Vec::new();
    let mut i: usize = 0;
    while i < v.len()
        invariant
            i <= v.len(),
            r@.len() == i,
            forall|j: int| 0 <= j < i ==> (#[trigger] r@[j])@ == v@[j]@,
        decreases v.len() - i,
    {
        let e = v[i].clone();
        r.push(e);
        i += 1;
    }
    proof {
        assert(edges_view(r@) =~= edges_view(v@));
    }
    r
}

impl Clone for Path {
    fn clone(&self) -> (r: Self)
        ensures
            r@ == self@,
    {
        Path { nodes: clone_nodes(&self.nodes), relationships: clone_edges(&self.relationships) }
    }
}

/// A value that a query computes with.
#[derive(Debug)]
pub enum CypherValue {
    Null,
    Boolean(bool),
    Integer(i64),
    /// The bits of a floating-point number.
    Float(u64),
    String(String),
    List(Vec<CypherValue>),
    MapValue(ValueMap),
    Node(Node),
    Relationship(Edge),
    Path(Path),
    /// A calendar date, as the number of days from the first day of year 1,
    /// which has the number 1.
    Date(i32),
    /// A point in time: seconds since the Unix epoch, and nanoseconds.
    Timestamp(i64, u32),
}

/// A map from texts to query values, in the order in which its keys came.
#[derive(Debug)]
pub struct ValueMap {
    pub entries: Vec<(String, CypherValue)>,
}

/// A row of bindings from variables to values.
pub type Record = ValueMap;

/// The parameters of a query.
pub type Parameters = ValueMap;

/// The view of a `CypherValue`.
pub enum ValV {
    Null,
    Boolean(bool),
    Integer(i64),
    Float(u64),
    Str(Seq<char>),
    List(Seq<ValV>),
    Dict(Seq<(Seq<char>, ValV)>),
    Node(NodeV),
    Relationship(EdgeV),
    Path(PathV),
    Date(i32),
    Timestamp(i64, u32),
}

/// The view of a row.
pub type RecV = Seq<(Seq<char>, ValV)>;

impl CypherValue {
    pub open spec fn view(&self) -> ValV
        decreases self,
    {
        match self {
            CypherValue::Null => ValV::Null,
            CypherValue::Boolean(b) => ValV::Boolean(*b),
            CypherValue::Integer(i) => ValV::Integer(*i),
            CypherValue::Float(f) => ValV::Float(*f),
            CypherValue::String(s) => ValV::Str(s@),
            CypherValue::List(items) => ValV::List(vals_view(items@)),
            CypherValue::MapValue(m) => ValV::Dict(pairs_view(m.entries@)),
            CypherValue::Node(n) => ValV::Node(n@),
            CypherValue::Relationship(e) => ValV::Relationship(e@),
            CypherValue::Path(p) => ValV::Path(p@),
            CypherValue::Date(d) => ValV::Date(*d),
            CypherValue::Timestamp(s, n) => ValV::Timestamp(*s, *n),
        }
    }
}

pub open spec fn vals_view(s: Seq<CypherValue>) -> Seq<ValV>
    decreases s,
{
    Seq::new(
        s.len(),
        |i: int|
            if 0 <= i < s.len() {
                s[i].view()
            } else {
                ValV::Null
            },
    )
}

pub open spec fn pairs_view(s: Seq<(String, CypherValue)>) -> RecV
    decreases s,
{
    Seq::new(
        s.len(),
        |i: int|
            if 0 <= i < s.len() {
                (s[i].0@, s[i].1.view())
            } else {
                arbitrary()
            },
    )
}

pub fn clone_values(v: &Vec<CypherValue>) -> (r: Vec<CypherValue>)
    ensures
        vals_view(r@) == vals_view(v@),
    decreases v,
{
    let mut r: Vec<CypherValue> = Vec::new();
    let mut i: usize = 0;
    while i < v.len()
        invariant
            i <= v.len(),
            r@.len() == i,
            forall|j: int| 0 <= j < i ==> (#[trigger] r@[j])@ == v@[j]@,
        decreases v.len() - i,
    {
        let c = v[i].clone();
        r.push(c);
        i += 1;
    }
    proof {
        assert(vals_view(r@) =~= vals_view(v@));
    }
    r
}

impl Clone for CypherValue {
    fn clone(&self) -> (r: Self)
        ensures
            r@ == self@,
        decreases self,
    {
        match self {
            CypherValue::Null => CypherValue::Null,
            CypherValue::Boolean(b) => CypherValue::Boolean(*b),
            CypherValue::Integer(i) => CypherValue::Integer(*i),
            CypherValue::Float(f) => CypherValue::Float(*f),
            CypherValue::String(s) => CypherValue::String(s.clone()),
            CypherValue::List(items) => CypherValue::List(clone_values(items)),
            CypherValue::MapValue(m) => CypherValue::MapValue(m.clone()),
            CypherValue::Node(n) => CypherValue::Node(n.clone()),
            CypherValue::Relationship(e) => CypherValue::Relationship(e.clone()),
            CypherValue::Path(p) => CypherValue::Path(p.clone()),
            CypherValue::Date(d) => CypherValue::Date(*d),
            CypherValue::Timestamp(s, n) => CypherValue::Timestamp(*s, *n),
        }
    }
}

impl Clone for ValueMap {
    fn clone(&self) -> (r: Self)
        ensures
            r@ == self@,
        decreases self,
    {
        let mut out: Vec<(String, CypherValue)> = Vec::new();
        let mut i: usize = 0;
        while i < self.entries.len()
            invariant
                i <= self.entries.len(),
                out@.len() == i,
                forall|j: int|
                    0 <= j < i ==> (#[trigger] out@[j]).0@ == self.entries@[j].0@ && out@[j].1@
                        == self.entries@[j].1@,
            decreases self.entries.len() - i,
        {
            let v = self.entries[i].1.clone();
            let k = self.entries[i].0.clone();
            out.push((k, v));
            i += 1;
        }
        let r = ValueMap { entries: out };
        proof {
            assert(r@ =~= self@);
        }
        r
    }
}

impl ValueMap {
    pub open spec fn view(&self) -> RecV {
        pairs_view(self.entries@)
    }

    pub fn new() -> (r: Self)
        ensures
            r@ == RecV::empty(),
    {
        let r = ValueMap { entries: Vec::new() };
        proof {
            assert(r@ =~= RecV::empty());
        }
        r
    }

    /// An empty map with room for some entries.
    pub fn with_capacity(cap: usize) -> (r: Self)
        ensures
            r@ == RecV::empty(),
    {
        let mut r = ValueMap::new();
        r.reserve(cap);
        r
    }

    fn find(&self, k: &str) -> (r: Option<usize>)
        ensures
            match r {
                Some(i) => i < self.entries.len() && assoc::position(self@, k@) == Some(i as int),
                None => assoc::position(self@, k@) is None,
            },
    {
        let mut i: usize = 0;
        while i < self.entries.len()
            invariant
                i <= self.entries.len(),
                assoc::position(self@, k@) == assoc::position_from(self@, k@, i as int),
            decreases self.entries.len() - i,
        {
            if same_text(self.entries[i].0.as_str(), k) {
                return Some(i);
            }
            i += 1;
        }
        None
    }

    /// The value that a key is bound to.
    pub fn get(&self, k: &str) -> (r: Option<&CypherValue>)
        ensures
            match r {
                Some(v) => assoc::lookup(self@, k@) == Some(v@),
                None => assoc::lookup(self@, k@) is None,
            },
    {
        match self.find(k) {
            Some(i) => Some(&self.entries[i].1),
            None => None,
        }
    }

    /// A copy of the value that a key is bound to, `Null` where there is none.
    pub fn get_or_null(&self, k: &str) -> (r: CypherValue)
        ensures
            r@ == value_or_null(self@, k@),
    {
        match self.find(k) {
            Some(i) => self.entries[i].1.clone(),
            None => CypherValue::Null,
        }
    }

    pub fn contains_key(&self, k: &str) -> (r: bool)
        ensures
            r == (assoc::lookup(self@, k@) is Some),
    {
        self.find(k).is_some()
    }

    /// Binds a key to a value, in place of the one that comes back.
    pub fn insert(&mut self, k: String, v: CypherValue) -> (r: Option<CypherValue>)
        ensures
            final(self)@ == assoc::bind(old(self)@, k@, v@),
            opt_view(r) == assoc::lookup(old(self)@, k@),
    {
        match self.find(k.as_str()) {
            Some(i) => {
                self.entries.push((k, v));
                let (_, before) = self.entries.swap_remove(i);
                proof {
                    assert(self@ =~= old(self)@.update(i as int, (k@, v@)));
                }
                Some(before)
            },
            None => {
                self.entries.push((k, v));
                proof {
                    assert(self@ =~= old(self)@.push((k@, v@)));
                }
                None
            },
        }
    }

    /// The map with one more binding.
    pub fn with(&self, k: &str, v: CypherValue) -> (r: Self)
        ensures
            r@ == assoc::bind(self@, k@, v@),
    {
        let mut r = self.clone();
        r.insert(k.to_owned(), v);
        r
    }

    /// Takes a key away, with the value that comes back.
    pub fn remove(&mut self, k: &str) -> (r: Option<CypherValue>)
        ensures
            final(self)@ == assoc::unbind(old(self)@, k@),
            opt_view(r) == assoc::lookup(old(self)@, k@),
    {
        let gone = match self.find(k) {
            Some(i) => Some(self.entries[i].1.clone()),
            None => None,
        };
        let mut out: Vec<(String, CypherValue)> = Vec::new();
        let mut i: usize = 0;
        proof {
            assert(self@.take(0) =~= RecV::empty());
            assert(pairs_view(out@) =~= RecV::empty());
        }
        while i < self.entries.len()
            invariant
                i <= self.entries.len(),
                pairs_view(out@) == assoc::unbind(self@.take(i as int), k@),
            decreases self.entries.len() - i,
        {
            proof {
                assert(self@.take(i as int + 1).drop_last() =~= self@.take(i as int));
                assert(self@.take(i as int + 1).last() == self@[i as int]);
            }
            if !same_text(self.entries[i].0.as_str(), k) {
                let ghost before = pairs_view(out@);
                let key = self.entries[i].0.clone();
                let val = self.entries[i].1.clone();
                out.push((key, val));
                proof {
                    assert(pairs_view(out@) =~= before.push(self@[i as int]));
                }
            }
            i += 1;
        }
        proof {
            assert(self@.take(self@.len() as int) =~= self@);
        }
        self.entries = out;
        gone
    }

    /// Keeps the entries that a test accepts.
    pub fn retain<F: Fn(&String, &CypherValue) -> bool>(&mut self, f: F)
        requires
            forall|k: &String, v: &CypherValue| f.requires((k, v)),
        ensures
            exists|keep: Seq<bool>|
                keep.len() == old(self)@.len() && (forall|i: int|
                    0 <= i < keep.len() ==> f.ensures(
                        (&old(self).entries@[i].0, &old(self).entries@[i].1),
                        #[trigger] keep[i],
                    )) && final(self)@ == #[trigger] kept(old(self)@, keep, keep.len()),
    {
        let ghost mut keep: Seq<bool> = seq![];
        let mut out: Vec<(String, CypherValue)> = Vec::new();
        let mut i: usize = 0;
        proof {
            assert(pairs_view(out@) =~= RecV::empty());
        }
        while i < self.entries.len()
            invariant
                *self == *old(self),
                forall|k: &String, v: &CypherValue| f.requires((k, v)),
                i <= self.entries.len(),
                keep.len() == i,
                forall|j: int|
                    0 <= j < i ==> f.ensures(
                        (&self.entries@[j].0, &self.entries@[j].1),
                        #[trigger] keep[j],
                    ),
                pairs_view(out@) == kept(self@, keep, keep.len()),
            decreases self.entries.len() - i,
        {
            let ghost before = keep;
            let yes = f(&self.entries[i].0, &self.entries[i].1);
            proof {
                keep = keep.push(yes);
                lemma_kept_pushed(self@, before, yes, before.len());
            }
            if yes {
                let ghost had = pairs_view(out@);
                let key = self.entries[i].0.clone();
                let val = self.entries[i].1.clone();
                out.push((key, val));
                proof {
                    assert(pairs_view(out@) =~= had.push(self@[i as int]));
                }
            }
            i += 1;
        }
        self.entries = out;
    }

    /// Makes room for more entries, where there is memory for them.
    pub fn reserve(&mut self, additional: usize)
        ensures
            final(self)@ == old(self)@,
    {
        let _ = self.entries.try_reserve(additional);
    }

    /// Makes all bindings of another map.
    pub fn extend(&mut self, other: &ValueMap)
        ensures
            final(self)@ == assoc::bind_all(old(self)@, other@),
    {
        let mut i: usize = 0;
        while i < other.entries.len()
            invariant
                i <= other.entries.len(),
                assoc::bind_all(old(self)@, other@) == assoc::bind_all_from(self@, other@, i as int),
            decreases other.entries.len() - i,
        {
            let k = other.entries[i].0.clone();
            let v = other.entries[i].1.clone();
            self.insert(k, v);
            i += 1;
        }
    }
}

/// The first `n` entries without those that are not to be kept.
pub open spec fn kept(m: RecV, keep: Seq<bool>, n: nat) -> RecV
    decreases n,
{
    if n == 0 {
        seq![]
    } else if keep[n - 1] {
        kept(m, keep, (n - 1) as nat).push(m[n - 1])
    } else {
        kept(m, keep, (n - 1) as nat)
    }
}

proof fn lemma_kept_pushed(m: RecV, keep: Seq<bool>, b: bool, n: nat)
    requires
        n <= keep.len(),
    ensures
        kept(m, keep.push(b), n) == kept(m, keep, n),
    decreases n,
{
    if n > 0 {
        lemma_kept_pushed(m, keep, b, (n - 1) as nat);
    }
}

/// The view of a value that may be missing.
pub open spec fn opt_view(v: Option<CypherValue>) -> Option<ValV> {
    match v {
        Some(x) => Some(x@),
        None => None,
    }
}

impl Default for ValueMap {
    fn default() -> (r: Self)
        ensures
            r@ == RecV::empty(),
    {
        ValueMap::new()
    }
}

/// The value that a key is bound to, `Null` where there is none.
pub open spec fn value_or_null(m: RecV, k: Seq<char>) -> ValV {
    match assoc::lookup(m, k) {
        Some(v) => v,
        None => ValV::Null,
    }
}

/// The views of a list of rows.
pub open spec fn recs_view(s: Seq<Record>) -> Seq<RecV> {
    Seq::new(s.len(), |i: int| s[i]@)
}

/// A property as a query value.
pub open spec fn prop_as_value(p: PropV) -> ValV {
    match p {
        PropV::Str(s) => ValV::Str(s),
        PropV::Int(i) => ValV::Integer(i),
        PropV::Float(f) => ValV::Float(f),
        PropV::Bool(b) => ValV::Boolean(b),
    }
}

pub fn property_value_to_cypher(pv: &PropertyValue) -> (r: CypherValue)
    ensures
        r@ == prop_as_value(pv@),
{
    match pv {
        PropertyValue::String(s) => CypherValue::String(s.clone()),
        PropertyValue::Int(i) => CypherValue::Integer(*i),
        PropertyValue::Float(f) => CypherValue::Float(*f),
        PropertyValue::Bool(b) => CypherValue::Boolean(*b),
    }
}

/// The name of the type of a value.
#[verifier::opaque]
pub open spec fn value_kind(v: ValV) -> Seq<char> {
    match v {
        ValV::Null => "Null"@,
        ValV::Boolean(_) => "Boolean"@,
        ValV::Integer(_) => "Integer"@,
        ValV::Float(_) => "Float"@,
        ValV::Str(_) => "String"@,
        ValV::List(_) => "List"@,
        ValV::Dict(_) => "Map"@,
        ValV::Node(_) => "Node"@,
        ValV::Relationship(_) => "Relationship"@,
        ValV::Path(_) => "Path"@,
        ValV::Date(_) => "Date"@,
        ValV::Timestamp(_, _) => "Timestamp"@,
    }
}

pub fn cypher_value_type_name(val: &CypherValue) -> (r: &'static str)
    ensures
        r@ == value_kind(val@),
{
    proof {
        reveal(value_kind);
    }
    match val {
        CypherValue::Null => "Null",
        CypherValue::Boolean(_) => "Boolean",
        CypherValue::Integer(_) => "Integer",
        CypherValue::Float(_) => "Float",
        CypherValue::String(_) => "String",
        CypherValue::List(_) => "List",
        CypherValue::MapValue(_) => "Map",
        CypherValue::Node(_) => "Node",
        CypherValue::Relationship(_) => "Relationship",
        CypherValue::Path(_) => "Path",
        CypherValue::Date(_) => "Date",
        CypherValue::Timestamp(_, _) => "Timestamp",
    }
}

} // verus!
