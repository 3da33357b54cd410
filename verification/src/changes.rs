//! What SET and REMOVE change, and what they leave as it is.
use crate::assoc;
use crate::ast::{ExprV, RemoveV, SetV};
use crate::combining;
use crate::executor;
use crate::plan::PlanV;
use crate::rows::TableV;
use crate::semantics::{self, EnvV};
use crate::store::{self, StoreV};
use crate::text;
use crate::value::{EdgeV, NodeV, PropV, PropsV, RecV, ValV};
use crate::writes;
use vstd::prelude::*;

verus! {

// ---------------------------------------------------------------------------
// What may change
// ---------------------------------------------------------------------------

/// Of two graphs all is the same but for one node, which keeps its identifier.
pub open spec fn only_node(a: StoreV, b: StoreV, id: u64) -> bool {
    &&& b == StoreV { nodes: b.nodes, ..a }
    &&& b.nodes.len() == a.nodes.len()
    &&& forall|i: int| 0 <= i < a.nodes.len() && i != id ==> #[trigger] b.nodes[i] == a.nodes[i]
    &&& 0 <= id < b.nodes.len()
    &&& b.nodes[id as int] matches Some(n) && n.id == id
}

/// Of two graphs all is the same but for the properties of one relationship.
pub open spec fn only_edge(a: StoreV, b: StoreV, id: u64) -> bool {
    &&& b == StoreV { edges: b.edges, ..a }
    &&& b.edges.len() == a.edges.len()
    &&& forall|i: int| 0 <= i < a.edges.len() && i != id ==> #[trigger] b.edges[i] == a.edges[i]
    &&& 0 <= id < b.edges.len()
    &&& a.edges[id as int] is Some
    &&& b.edges[id as int] == Some(
        EdgeV { properties: b.edges[id as int]->0.properties, ..a.edges[id as int]->0 },
    )
}

/// A row is another one in which a variable has a new value.
pub open spec fn only_variable(out: RecV, rec: RecV, x: Seq<char>, v: ValV) -> bool {
    &&& assoc::lookup(out, x) == Some(v)
    &&& forall|y: Seq<char>| y != x ==> #[trigger] assoc::lookup(out, y) == assoc::lookup(rec, y)
}

/// A property holds a value.
pub open spec fn stores(p: PropV, v: ValV) -> bool {
    match (p, v) {
        (PropV::Str(s), ValV::Str(t)) => s == t,
        (PropV::Int(i), ValV::Integer(j)) => i == j,
        (PropV::Float(f), ValV::Float(g)) => f == g,
        (PropV::Bool(b), ValV::Boolean(c)) => b == c,
        _ => false,
    }
}

/// A value that a property can hold.
pub open spec fn storable(v: ValV) -> bool {
    v is Str || v is Integer || v is Float || v is Boolean
}

/// The values of a map are such as properties can hold.
pub open spec fn all_storable(m: RecV) -> bool {
    forall|i: int| 0 <= i < m.len() ==> storable((#[trigger] m[i]).1)
}

/// Properties after a map was put on them: those of its keys have its values,
/// and the others are as they were, or gone where nothing is kept.
pub open spec fn puts(new: PropsV, old: PropsV, m: RecV, keep: bool) -> bool {
    forall|k: Seq<char>| match assoc::lookup(m, k) {
        Some(v) => #[trigger] assoc::lookup(new, k) matches Some(p) && stores(p, v),
        None => assoc::lookup(new, k) == if keep {
            assoc::lookup(old, k)
        } else {
            None
        },
    }
}

// ---------------------------------------------------------------------------
// SET of a map
// ---------------------------------------------------------------------------

pub open spec fn map_item(x: Seq<char>, e: ExprV, merge: bool) -> SetV {
    if merge {
        SetV::MergeProperties { variable: x, expression: e }
    } else {
        SetV::AllProperties { variable: x, expression: e }
    }
}

/// `SET x += m` on a node gives the properties of `m` their values in `m` and
/// leaves the others as they were; `SET x = m` leaves just those of `m`. Nothing
/// else in the graph changes, and the row has the node as it now is.
pub proof fn lemma_set_node_map(
    x: Seq<char>,
    e: ExprV,
    merge: bool,
    m: RecV,
    n: NodeV,
    rec: RecV,
    env: EnvV,
    st: StoreV,
)
    requires
        store::well_formed(st),
        semantics::eval(e, rec, env, st) == Ok::<ValV, crate::error::ErrV>(ValV::Dict(m)),
        assoc::distinct_keys(m),
        all_storable(m),
        assoc::lookup(rec, x) == Some(ValV::Node(n)),
        0 <= n.id < st.nodes.len() && st.nodes[n.id as int] is Some,
    ensures
        ({
            let (r, after) = writes::set_item(map_item(x, e, merge), rec, env, st);
            let old = st.nodes[n.id as int]->0;
            let new = after.nodes[n.id as int]->0;
            &&& only_node(st, after, n.id)
            &&& new.labels == old.labels
            &&& puts(new.properties, old.properties, m, merge)
            &&& r matches Ok(out) && only_variable(out, rec, x, ValV::Node(new))
        }),
{
    lemma_map_props(m, 0, seq![]);
    let props = writes::map_props(m, 0, seq![])->Ok_0;
    let old = st.nodes[n.id as int]->0;
    assert(puts(props, seq![], m, false)) by {
        assert forall|k: Seq<char>| match assoc::lookup(m, k) {
            Some(v) => #[trigger] assoc::lookup(props, k) matches Some(p) && stores(p, v),
            None => assoc::lookup(props, k) == None::<PropV>,
        } by {
            assert(assoc::lookup(Seq::<(Seq<char>, PropV)>::empty(), k) is None);
        }
    }
    lemma_puts(props, old.properties, m);
    let after = writes::set_item(map_item(x, e, merge), rec, env, st).1;
    assert(only_node(st, after, n.id));
    lemma_rebound(rec, x, ValV::Node(after.nodes[n.id as int]->0));
}

/// The same on a relationship.
pub proof fn lemma_set_edge_map(
    x: Seq<char>,
    e: ExprV,
    merge: bool,
    m: RecV,
    g: EdgeV,
    rec: RecV,
    env: EnvV,
    st: StoreV,
)
    requires
        store::well_formed(st),
        semantics::eval(e, rec, env, st) == Ok::<ValV, crate::error::ErrV>(ValV::Dict(m)),
        assoc::distinct_keys(m),
        all_storable(m),
        assoc::lookup(rec, x) == Some(ValV::Relationship(g)),
        0 <= g.id < st.edges.len() && st.edges[g.id as int] is Some,
    ensures
        ({
            let (r, after) = writes::set_item(map_item(x, e, merge), rec, env, st);
            let old = st.edges[g.id as int]->0;
            let new = after.edges[g.id as int]->0;
            &&& only_edge(st, after, g.id)
            &&& puts(new.properties, old.properties, m, merge)
            &&& r matches Ok(out) && only_variable(out, rec, x, ValV::Relationship(new))
        }),
{
    lemma_map_props(m, 0, seq![]);
    let props = writes::map_props(m, 0, seq![])->Ok_0;
    let old = st.edges[g.id as int]->0;
    assert(puts(props, seq![], m, false)) by {
        assert forall|k: Seq<char>| match assoc::lookup(m, k) {
            Some(v) => #[trigger] assoc::lookup(props, k) matches Some(p) && stores(p, v),
            None => assoc::lookup(props, k) == None::<PropV>,
        } by {
            assert(assoc::lookup(Seq::<(Seq<char>, PropV)>::empty(), k) is None);
        }
    }
    lemma_puts(props, old.properties, m);
    let after = writes::set_item(map_item(x, e, merge), rec, env, st).1;
    assert(only_edge(st, after, g.id));
    lemma_rebound(rec, x, ValV::Relationship(after.edges[g.id as int]->0));
}

/// A map with a value that no property can hold is refused, and the graph stays
/// as it is.
pub proof fn lemma_set_map_refused(
    x: Seq<char>,
    e: ExprV,
    merge: bool,
    m: RecV,
    rec: RecV,
    env: EnvV,
    st: StoreV,
)
    requires
        semantics::eval(e, rec, env, st) == Ok::<ValV, crate::error::ErrV>(ValV::Dict(m)),
        !all_storable(m),
    ensures
        writes::set_item(map_item(x, e, merge), rec, env, st).0 is Err,
        writes::set_item(map_item(x, e, merge), rec, env, st).1 == st,
{
    let i = choose|i: int| 0 <= i < m.len() && !storable((#[trigger] m[i]).1);
    lemma_map_refused(m, 0, seq![], i);
}

proof fn lemma_map_refused(m: RecV, i: int, acc: PropsV, bad: int)
    requires
        0 <= i <= bad < m.len(),
        !storable(m[bad].1),
    ensures
        writes::map_props(m, i, acc) is Err,
    decreases m.len() - i,
{
    if i < bad {
        match writes::property_from(m[i].1) {
            Ok(p) => {
                lemma_map_refused(m, i + 1, assoc::bind(acc, m[i].0, p), bad);
            },
            Err(_) => {},
        }
    }
}

proof fn lemma_rebound(rec: RecV, x: Seq<char>, v: ValV)
    ensures
        only_variable(assoc::bind(rec, x, v), rec, x, v),
{
    let out = assoc::bind(rec, x, v);
    assoc::lemma_lookup_bind(rec, x, v, x);
    assert forall|y: Seq<char>| y != x implies #[trigger] assoc::lookup(out, y) == assoc::lookup(
        rec,
        y,
    ) by {
        assoc::lemma_lookup_bind(rec, x, v, y);
    }
}

/// The properties of a map are its entries.
proof fn lemma_map_props(m: RecV, i: int, acc: PropsV)
    requires
        0 <= i <= m.len(),
        assoc::distinct_keys(m),
        all_storable(m),
        assoc::distinct_keys(acc),
    ensures
        writes::map_props(m, i, acc) matches Ok(props) && assoc::distinct_keys(props) && forall|
            k: Seq<char>,
        |
            match assoc::position_from(m, k, i) {
                Some(p) => #[trigger] assoc::lookup(props, k) matches Some(w) && stores(w, m[p].1),
                None => assoc::lookup(props, k) == assoc::lookup(acc, k),
            },
    decreases m.len() - i,
{
    if i < m.len() {
        let p = writes::property_from(m[i].1)->Ok_0;
        let next = assoc::bind(acc, m[i].0, p);
        assoc::lemma_bind_distinct(acc, m[i].0, p);
        lemma_map_props(m, i + 1, next);
        let props = writes::map_props(m, i, acc)->Ok_0;
        assert forall|k: Seq<char>|
            match assoc::position_from(m, k, i) {
                Some(q) => #[trigger] assoc::lookup(props, k) matches Some(w) && stores(w, m[q].1),
                None => assoc::lookup(props, k) == assoc::lookup(acc, k),
            } by {
            assoc::lemma_lookup_bind(acc, m[i].0, p, k);
            assoc::lemma_position(m, k, i + 1);
            if m[i].0 == k {
                match assoc::position_from(m, k, i + 1) {
                    Some(q) => {
                        assert(m[i].0 != m[q].0);
                    },
                    None => {
                        assert(assoc::lookup(props, k) == assoc::lookup(next, k));
                    },
                }
            }
        }
    }
}

proof fn lemma_puts(props: PropsV, old: PropsV, m: RecV)
    requires
        assoc::distinct_keys(props),
        puts(props, seq![], m, false),
    ensures
        puts(assoc::bind_all(old, props), old, m, true),
        puts(props, old, m, false),
{
    let new = assoc::bind_all(old, props);
    assert forall|k: Seq<char>| match assoc::lookup(m, k) {
        Some(v) => #[trigger] assoc::lookup(new, k) matches Some(p) && stores(p, v),
        None => assoc::lookup(new, k) == assoc::lookup(old, k),
    } by {
        combining::lemma_bind_all(old, props, k);
        assert(match assoc::lookup(m, k) {
            Some(v) => assoc::lookup(props, k) matches Some(p) && stores(p, v),
            None => assoc::lookup(props, k) == None::<PropV>,
        });
    }
    assert forall|k: Seq<char>| match assoc::lookup(m, k) {
        Some(v) => #[trigger] assoc::lookup(props, k) matches Some(p) && stores(p, v),
        None => assoc::lookup(props, k) == None::<PropV>,
    } by {}
}

// ---------------------------------------------------------------------------
// SET and REMOVE of a property
// ---------------------------------------------------------------------------

/// Properties after one of them was given a value; a null takes it away.
pub open spec fn puts_one(new: PropsV, old: PropsV, k: Seq<char>, v: ValV) -> bool {
    &&& if v is Null {
        assoc::lookup(new, k) is None
    } else {
        assoc::lookup(new, k) matches Some(p) && stores(p, v)
    }
    &&& forall|j: Seq<char>| j != k ==> #[trigger] assoc::lookup(new, j) == assoc::lookup(old, j)
}

/// `SET x.k = v` gives the property of the node or relationship the value, or
/// takes it away where the value is null, and changes nothing else. A value that
/// no property can hold is refused.
pub proof fn lemma_set_property(
    x: Seq<char>,
    k: Seq<char>,
    e: ExprV,
    v: ValV,
    rec: RecV,
    env: EnvV,
    st: StoreV,
)
    requires
        store::well_formed(st),
        semantics::eval(e, rec, env, st) == Ok::<ValV, crate::error::ErrV>(v),
    ensures
        ({
            let (r, after) = writes::set_item(
                SetV::Property { variable: x, property: k, expression: e },
                rec,
                env,
                st,
            );
            if !storable(v) && !(v is Null) {
                r is Err && after == st
            } else {
                match assoc::lookup(rec, x) {
                    Some(ValV::Node(n)) => 0 <= n.id < st.nodes.len() && st.nodes[n.id as int]
                        is Some ==> {
                        let old = st.nodes[n.id as int]->0;
                        let new = after.nodes[n.id as int]->0;
                        &&& only_node(st, after, n.id)
                        &&& new.labels == old.labels
                        &&& puts_one(new.properties, old.properties, k, v)
                        &&& r matches Ok(out) && only_variable(out, rec, x, ValV::Node(new))
                    },
                    Some(ValV::Relationship(g)) => 0 <= g.id < st.edges.len()
                        && st.edges[g.id as int] is Some ==> {
                        let old = st.edges[g.id as int]->0;
                        let new = after.edges[g.id as int]->0;
                        &&& only_edge(st, after, g.id)
                        &&& puts_one(new.properties, old.properties, k, v)
                        &&& r matches Ok(out) && only_variable(out, rec, x, ValV::Relationship(new))
                    },
                    _ => r == Ok::<RecV, crate::error::ErrV>(rec) && after == st,
                }
            }
        }),
{
    let item = SetV::Property { variable: x, property: k, expression: e };
    let after = writes::set_item(item, rec, env, st).1;
    if storable(v) || v is Null {
        match assoc::lookup(rec, x) {
            Some(ValV::Node(n)) => {
                if 0 <= n.id < st.nodes.len() && st.nodes[n.id as int] is Some {
                    let old = st.nodes[n.id as int]->0;
                    let new = after.nodes[n.id as int]->0;
                    lemma_puts_one(old.properties, k, v);
                    assert(only_node(st, after, n.id));
                    lemma_rebound(rec, x, ValV::Node(new));
                }
            },
            Some(ValV::Relationship(g)) => {
                if 0 <= g.id < st.edges.len() && st.edges[g.id as int] is Some {
                    let old = st.edges[g.id as int]->0;
                    let new = after.edges[g.id as int]->0;
                    lemma_puts_one(old.properties, k, v);
                    assert(only_edge(st, after, g.id));
                    lemma_rebound(rec, x, ValV::Relationship(new));
                }
            },
            _ => {},
        }
    }
}

proof fn lemma_puts_one(old: PropsV, k: Seq<char>, v: ValV)
    ensures
        v is Null ==> puts_one(assoc::unbind(old, k), old, k, v),
        storable(v) ==> puts_one(
            assoc::bind(old, k, writes::property_from(v)->Ok_0),
            old,
            k,
            v,
        ),
{
    if v is Null {
        let new = assoc::unbind(old, k);
        assoc::lemma_lookup_unbind(old, k, k);
        assert forall|j: Seq<char>| j != k implies #[trigger] assoc::lookup(new, j)
            == assoc::lookup(old, j) by {
            assoc::lemma_lookup_unbind(old, k, j);
        }
    }
    if storable(v) {
        let p = writes::property_from(v)->Ok_0;
        let new = assoc::bind(old, k, p);
        assoc::lemma_lookup_bind(old, k, p, k);
        assert forall|j: Seq<char>| j != k implies #[trigger] assoc::lookup(new, j)
            == assoc::lookup(old, j) by {
            assoc::lemma_lookup_bind(old, k, p, j);
        }
    }
}

/// `REMOVE x.k` does what `SET x.k = null` does.
pub proof fn lemma_remove_property(
    x: Seq<char>,
    k: Seq<char>,
    e: ExprV,
    rec: RecV,
    env: EnvV,
    st: StoreV,
)
    requires
        semantics::eval(e, rec, env, st) == Ok::<ValV, crate::error::ErrV>(ValV::Null),
    ensures
        ({
            let (out, after) = writes::remove_item(
                RemoveV::Property { variable: x, property: k },
                rec,
                st,
            );
            writes::set_item(
                SetV::Property { variable: x, property: k, expression: e },
                rec,
                env,
                st,
            ) == (Ok::<RecV, crate::error::ErrV>(out), after)
        }),
{
}

// ---------------------------------------------------------------------------
// Labels
// ---------------------------------------------------------------------------

/// `SET x:L` gives a node the labels, each once, behind those it has; `REMOVE
/// x:L` takes them away. Nothing else changes.
pub proof fn lemma_labels(
    x: Seq<char>,
    labels: Seq<Seq<char>>,
    n: NodeV,
    rec: RecV,
    env: EnvV,
    st: StoreV,
)
    requires
        store::well_formed(st),
        assoc::lookup(rec, x) == Some(ValV::Node(n)),
        0 <= n.id < st.nodes.len() && st.nodes[n.id as int] is Some,
    ensures
        ({
            let (r, after) = writes::set_item(SetV::Label { variable: x, labels }, rec, env, st);
            let old = st.nodes[n.id as int]->0;
            let new = after.nodes[n.id as int]->0;
            &&& only_node(st, after, n.id)
            &&& new.properties == old.properties
            &&& forall|l: Seq<char>| #[trigger]
                new.labels.contains(l) <==> old.labels.contains(l) || labels.contains(l)
            &&& old.labels.no_duplicates() ==> new.labels.no_duplicates()
            &&& r matches Ok(out) && only_variable(out, rec, x, ValV::Node(new))
        }),
        ({
            let (out, after) = writes::remove_item(RemoveV::Label { variable: x, labels }, rec, st);
            let old = st.nodes[n.id as int]->0;
            let new = after.nodes[n.id as int]->0;
            &&& only_node(st, after, n.id)
            &&& new.properties == old.properties
            &&& forall|l: Seq<char>| #[trigger]
                new.labels.contains(l) <==> old.labels.contains(l) && !labels.contains(l)
            &&& only_variable(out, rec, x, ValV::Node(new))
        }),
{
    let old = st.nodes[n.id as int]->0;
    lemma_joined(old.labels, labels, 0);
    lemma_dropped(old.labels, labels, 0);
    let added = writes::set_item(SetV::Label { variable: x, labels }, rec, env, st).1;
    let dropped = writes::remove_item(RemoveV::Label { variable: x, labels }, rec, st).1;
    assert(only_node(st, added, n.id));
    assert(only_node(st, dropped, n.id));
    lemma_rebound(rec, x, ValV::Node(added.nodes[n.id as int]->0));
    lemma_rebound(rec, x, ValV::Node(dropped.nodes[n.id as int]->0));
    let a = added.nodes[n.id as int]->0.labels;
    assert forall|l: Seq<char>| #[trigger] a.contains(l) <==> old.labels.contains(l)
        || labels.contains(l) by {
        assert(later(labels, 0, l) <==> labels.contains(l));
    }
    let d = dropped.nodes[n.id as int]->0.labels;
    assert forall|l: Seq<char>| #[trigger] d.contains(l) <==> old.labels.contains(l)
        && !labels.contains(l) by {
        assert(later(labels, 0, l) <==> labels.contains(l));
    }
}

spec fn later(s: Seq<Seq<char>>, i: int, c: Seq<char>) -> bool {
    exists|k: int| i <= k < s.len() && #[trigger] s[k] == c
}

proof fn lemma_later(s: Seq<Seq<char>>, i: int, c: Seq<char>)
    requires
        0 <= i < s.len(),
    ensures
        later(s, i, c) <==> s[i] == c || later(s, i + 1, c),
{
    if later(s, i, c) {
        let k = choose|k: int| i <= k < s.len() && #[trigger] s[k] == c;
        assert(k == i || later(s, i + 1, c));
    }
    if later(s, i + 1, c) {
        let k = choose|k: int| i + 1 <= k < s.len() && #[trigger] s[k] == c;
        assert(s[k] == c);
    }
}

proof fn lemma_pushed(s: Seq<Seq<char>>, x: Seq<char>, c: Seq<char>)
    ensures
        s.push(x).contains(c) <==> s.contains(c) || c == x,
{
    let now = s.push(x);
    if s.contains(c) {
        let k = choose|k: int| 0 <= k < s.len() && s[k] == c;
        assert(now[k] == c);
    }
    if c == x {
        assert(now[s.len() as int] == c);
    }
}

proof fn lemma_joined(labels: Seq<Seq<char>>, more: Seq<Seq<char>>, i: int)
    requires
        0 <= i <= more.len(),
    ensures
        ({
            let out = store::labels_joined(labels, more, i);
            &&& forall|l: Seq<char>| #[trigger]
                out.contains(l) <==> labels.contains(l) || later(more, i, l)
            &&& labels.no_duplicates() ==> out.no_duplicates()
        }),
    decreases more.len() - i,
{
    if i < more.len() {
        let out = store::labels_joined(labels, more, i);
        if text::has_text(labels, more[i]) {
            lemma_joined(labels, more, i + 1);
            assert(out == store::labels_joined(labels, more, i + 1));
            let k = choose|k: int| 0 <= k < labels.len() && #[trigger] labels[k] == more[i];
            assert(labels.contains(more[i]));
            assert forall|l: Seq<char>| #[trigger] out.contains(l) <==> labels.contains(l) || later(
                more,
                i,
                l,
            ) by {
                lemma_later(more, i, l);
            }
        } else {
            let next = labels.push(more[i]);
            lemma_joined(next, more, i + 1);
            assert(out == store::labels_joined(next, more, i + 1));
            assert forall|l: Seq<char>| #[trigger] out.contains(l) <==> labels.contains(l) || later(
                more,
                i,
                l,
            ) by {
                lemma_later(more, i, l);
                lemma_pushed(labels, more[i], l);
            }
            if labels.no_duplicates() {
                assert forall|a: int, b: int|
                    0 <= a < next.len() && 0 <= b < next.len() && a != b implies next[a] != next[b] by {
                    if a == labels.len() {
                        assert(labels[b] != more[i]);
                    } else if b == labels.len() {
                        assert(labels[a] != more[i]);
                    }
                }
            }
        }
    }
}

proof fn lemma_dropped_one(labels: Seq<Seq<char>>, x: Seq<char>, l: Seq<char>)
    ensures
        store::label_dropped(labels, x).contains(l) <==> labels.contains(l) && l != x,
    decreases labels.len(),
{
    if labels.len() > 0 {
        let d = labels.drop_last();
        lemma_dropped_one(d, x, l);
        assert(labels =~= d.push(labels.last()));
        lemma_pushed(d, labels.last(), l);
        lemma_pushed(store::label_dropped(d, x), labels.last(), l);
    }
}

proof fn lemma_dropped(labels: Seq<Seq<char>>, less: Seq<Seq<char>>, i: int)
    requires
        0 <= i <= less.len(),
    ensures
        ({
            let out = store::labels_dropped(labels, less, i);
            forall|l: Seq<char>| #[trigger]
                out.contains(l) <==> labels.contains(l) && !later(less, i, l)
        }),
    decreases less.len() - i,
{
    if i < less.len() {
        let next = store::label_dropped(labels, less[i]);
        lemma_dropped(next, less, i + 1);
        let out = store::labels_dropped(labels, less, i);
        assert(out == store::labels_dropped(next, less, i + 1));
        assert forall|l: Seq<char>| #[trigger] out.contains(l) <==> labels.contains(l) && !later(
            less,
            i,
            l,
        ) by {
            lemma_later(less, i, l);
            lemma_dropped_one(labels, less[i], l);
        }
    }
}

// ---------------------------------------------------------------------------
// Tables
// ---------------------------------------------------------------------------

/// The rows of a table bind a variable to nodes that are there, each to another.
pub open spec fn on_nodes(rs: Seq<RecV>, x: Seq<char>, st: StoreV) -> bool {
    &&& forall|i: int|
        0 <= i < rs.len() ==> (assoc::lookup(#[trigger] rs[i], x) matches Some(ValV::Node(n)) && 0
            <= n.id < st.nodes.len() && st.nodes[n.id as int] is Some)
    &&& forall|i: int, j: int|
        0 <= i < j < rs.len() ==> node_of(#[trigger] rs[i], x) != node_of(#[trigger] rs[j], x)
}

/// The node that a row binds a variable to.
pub open spec fn node_of(rec: RecV, x: Seq<char>) -> u64 {
    assoc::lookup(rec, x)->0->Node_0.id
}

/// SET serves every row: with a property set on a variable that the rows bind to
/// different nodes, each of those nodes has the value of its row, and each other
/// node is as it was.
pub proof fn lemma_set_rows(
    input: Box<PlanV>,
    t: TableV,
    x: Seq<char>,
    k: Seq<char>,
    e: ExprV,
    vals: Seq<ValV>,
    env: EnvV,
    st: StoreV,
)
    requires
        store::well_formed(st),
        on_nodes(t.rows, x, st),
        vals.len() == t.rows.len(),
        forall|i: int| 0 <= i < vals.len() ==> storable(#[trigger] vals[i]),
        forall|i: int, d: EnvV, s: StoreV|
            0 <= i < vals.len() ==> #[trigger] semantics::eval(e, t.rows[i], d, s) == Ok::<
                ValV,
                crate::error::ErrV,
            >(vals[i]),
    ensures
        ({
            let items = seq![SetV::Property { variable: x, property: k, expression: e }];
            let (r, after) = executor::step(PlanV::SetOp { input, items }, t, env, st);
            &&& after == StoreV { nodes: after.nodes, ..st }
            &&& after.nodes.len() == st.nodes.len()
            &&& r matches Ok(out) && out.cols == t.cols && out.rows.len() == t.rows.len() && forall|
                i: int,
            |
                0 <= i < t.rows.len() ==> {
                    let id = node_of(#[trigger] t.rows[i], x);
                    let old = st.nodes[id as int]->0;
                    let new = after.nodes[id as int]->0;
                    &&& after.nodes[id as int] is Some
                    &&& new.labels == old.labels
                    &&& puts_one(new.properties, old.properties, k, vals[i])
                    &&& only_variable(out.rows[i], t.rows[i], x, ValV::Node(new))
                }
            &&& forall|a: int|
                0 <= a < st.nodes.len() && (forall|i: int|
                    0 <= i < t.rows.len() ==> node_of(#[trigger] t.rows[i], x) != a)
                    ==> #[trigger] after.nodes[a] == st.nodes[a]
        }),
{
    reveal(executor::step);
    lemma_set_from(t.rows, t.rows, 0, x, k, e, vals, env, st, st);
}

/// The graph in which the first `i` rows were served.
spec fn served(
    rs: Seq<RecV>,
    now: Seq<RecV>,
    i: int,
    x: Seq<char>,
    k: Seq<char>,
    vals: Seq<ValV>,
    st: StoreV,
    s: StoreV,
) -> bool {
    &&& store::well_formed(s)
    &&& s == StoreV { nodes: s.nodes, ..st }
    &&& s.nodes.len() == st.nodes.len()
    &&& now.len() == rs.len()
    &&& forall|j: int| i <= j < rs.len() ==> #[trigger] now[j] == rs[j]
    &&& forall|j: int|
        0 <= j < i ==> {
            let id = node_of(#[trigger] rs[j], x);
            let old = st.nodes[id as int]->0;
            let new = s.nodes[id as int]->0;
            &&& s.nodes[id as int] is Some
            &&& new.labels == old.labels
            &&& puts_one(new.properties, old.properties, k, vals[j])
            &&& only_variable(now[j], rs[j], x, ValV::Node(new))
        }
    &&& forall|a: int|
        0 <= a < st.nodes.len() && (forall|j: int|
            0 <= j < i ==> node_of(#[trigger] rs[j], x) != a) ==> #[trigger] s.nodes[a]
            == st.nodes[a]
}

proof fn lemma_set_from(
    rs: Seq<RecV>,
    now: Seq<RecV>,
    i: int,
    x: Seq<char>,
    k: Seq<char>,
    e: ExprV,
    vals: Seq<ValV>,
    env: EnvV,
    st: StoreV,
    s: StoreV,
)
    requires
        on_nodes(rs, x, st),
        0 <= i <= rs.len(),
        vals.len() == rs.len(),
        forall|j: int| 0 <= j < vals.len() ==> storable(#[trigger] vals[j]),
        forall|j: int, d: EnvV, w: StoreV|
            0 <= j < vals.len() ==> #[trigger] semantics::eval(e, rs[j], d, w) == Ok::<
                ValV,
                crate::error::ErrV,
            >(vals[j]),
        served(rs, now, i, x, k, vals, st, s),
    ensures
        ({
            let items = seq![SetV::Property { variable: x, property: k, expression: e }];
            let (r, after) = writes::set_rows(now, i, items, env, s);
            r matches Ok(out) && served(rs, out, rs.len() as int, x, k, vals, st, after)
        }),
    decreases rs.len() - i,
{
    let item = SetV::Property { variable: x, property: k, expression: e };
    let items = seq![item];
    if i < rs.len() {
        let inner = env.at(i);
        let id = node_of(rs[i], x);
        assert(now[i] == rs[i]);
        assert(semantics::eval(e, rs[i], inner.at(0), s) == Ok::<ValV, crate::error::ErrV>(vals[i]));
        assert(assoc::lookup(rs[i], x) matches Some(ValV::Node(n)));
        assert forall|j: int| 0 <= j < i implies node_of(#[trigger] rs[j], x) != id by {}
        assert(s.nodes[id as int] == st.nodes[id as int]);
        lemma_set_property(x, k, e, vals[i], rs[i], inner.at(0), s);
        let (r, after) = writes::set_item(item, rs[i], inner.at(0), s);
        let out = r->Ok_0;
        reveal_with_fuel(writes::set_items, 2);
        assert(writes::set_items(items, 0, now[i], inner, s) == (
            Ok::<RecV, crate::error::ErrV>(out),
            after,
        ));
        let next = now.update(i, out);
        assert forall|j: int| 0 <= j < i + 1 implies {
            let jd = node_of(#[trigger] rs[j], x);
            let old = st.nodes[jd as int]->0;
            let new = after.nodes[jd as int]->0;
            &&& after.nodes[jd as int] is Some
            &&& new.labels == old.labels
            &&& puts_one(new.properties, old.properties, k, vals[j])
            &&& only_variable(next[j], rs[j], x, ValV::Node(new))
        } by {
            if j < i {
                assert(assoc::lookup(rs[j], x) matches Some(ValV::Node(n)));
                let jd = node_of(rs[j], x);
                assert(jd != id);
                assert(after.nodes[jd as int] == s.nodes[jd as int]);
                assert(next[j] == now[j]);
            }
        }
        assert forall|a: int|
            0 <= a < st.nodes.len() && (forall|j: int|
                0 <= j < i + 1 ==> node_of(#[trigger] rs[j], x) != a) implies #[trigger] after.nodes[a]
            == st.nodes[a] by {
            assert(node_of(rs[i], x) != a);
            assert(s.nodes[a] == st.nodes[a]);
        }
        assert(store::well_formed(after)) by {
            assert forall|a: int|
                #![trigger after.nodes[a]]
                0 <= a < after.nodes.len() implies (after.nodes[a] matches Some(n) ==> n.id
                == a) by {
                if a != id {
                    assert(after.nodes[a] == s.nodes[a]);
                }
            }
            assert forall|a: int|
                #![trigger after.edges[a]]
                0 <= a < after.edges.len() implies (after.edges[a] matches Some(g) ==> g.id == a
                && store::node_at(after, g.src) is Some && store::node_at(after, g.dst) is Some) by {
                assert(after.edges[a] == s.edges[a]);
            }
        }
        lemma_set_from(rs, next, i + 1, x, k, e, vals, env, st, after);
    }
}

} // verus!
