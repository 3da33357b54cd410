//! Constraints on the nodes with a label: what breaks them.
use crate::assoc;
use crate::ast;
use crate::backend;
use crate::number::nan;
use crate::refusal::{self, Refusal, RefusalV};
use crate::store;
use crate::text::{self, join2, join3, same_text, u64_text};
use crate::value::{self, Node, PropertyMap, PropertyValue, PropsV};
use vstd::prelude::*;

verus! {

/// Whether two property values are exactly the same.
pub fn same_property(a: &PropertyValue, b: &PropertyValue) -> (r: bool)
    ensures
        r == (a@ == b@),
{
    match (a, b) {
        (PropertyValue::String(x), PropertyValue::String(y)) => same_text(
            x.as_str(),
            y.as_str(),
        ),
        (PropertyValue::Int(x), PropertyValue::Int(y)) => *x == *y,
        (PropertyValue::Float(x), PropertyValue::Float(y)) => *x == *y,
        (PropertyValue::Bool(x), PropertyValue::Bool(y)) => *x == *y,
        _ => false,
    }
}

/// Whether two property values count as the same key.
pub fn same_key_value(a: &PropertyValue, b: &PropertyValue) -> (r: bool)
    ensures
        r == store::same_key(a@, b@),
{
    if same_property(a, b) {
        return true;
    }
    match (a, b) {
        (PropertyValue::Float(x), PropertyValue::Float(y)) => nan(*x) && nan(*y),
        _ => false,
    }
}

/// The view of a refusal that may be missing.
pub open spec fn opt_refusal(r: Option<Refusal>) -> Option<RefusalV> {
    match r {
        Some(x) => Some(x@),
        None => None,
    }
}

fn earlier_with_same(ns: &Vec<Node>, p: &str, v: &PropertyValue, i: usize) -> (r: Option<usize>)
    requires
        i <= ns.len(),
    ensures
        (match r {
            Some(j) => Some(j as int),
            None => None,
        }) == store::earlier_same(value::nodes_view(ns@), p@, v@, 0, i as int),
        r matches Some(j) ==> j < i,
{
    let mut j: usize = 0;
    while j < i
        invariant
            j <= i <= ns.len(),
            store::earlier_same(value::nodes_view(ns@), p@, v@, 0, i as int)
                == store::earlier_same(value::nodes_view(ns@), p@, v@, j as int, i as int),
        decreases i - j,
    {
        proof {
            assert(value::nodes_view(ns@)[j as int] == ns@[j as int]@);
        }
        if let Some(w) = ns[j].properties.get(p) {
            if same_key_value(w, v) {
                return Some(j);
            }
        }
        j += 1;
    }
    None
}

/// Why nodes break a unique constraint.
pub fn find_unique_conflict(ns: &Vec<Node>, label: &str, p: &str) -> (r: Option<Refusal>)
    ensures
        opt_refusal(r) == store::unique_conflict(value::nodes_view(ns@), label@, p@, 0),
{
    let mut i: usize = 0;
    while i < ns.len()
        invariant
            i <= ns.len(),
            store::unique_conflict(value::nodes_view(ns@), label@, p@, 0)
                == store::unique_conflict(value::nodes_view(ns@), label@, p@, i as int),
        decreases ns.len() - i,
    {
        proof {
            assert(value::nodes_view(ns@)[i as int] == ns@[i as int]@);
        }
        if let Some(v) = ns[i].properties.get(p) {
            if let Some(j) = earlier_with_same(ns, p, v, i) {
                proof {
                    assert(value::nodes_view(ns@)[j as int] == ns@[j as int]@);
                }
                return Some(
                    Refusal::Shared {
                        first: ns[j].id,
                        second: ns[i].id,
                        label: label.to_owned(),
                        property: p.to_owned(),
                        value: v.clone(),
                    },
                );
            }
        }
        i += 1;
    }
    None
}

/// Why nodes break a NOT NULL constraint.
pub fn find_not_null_conflict(ns: &Vec<Node>, label: &str, p: &str) -> (r: Option<String>)
    ensures
        ast::opt_text(r) == store::not_null_conflict(value::nodes_view(ns@), label@, p@, 0),
{
    let mut i: usize = 0;
    while i < ns.len()
        invariant
            i <= ns.len(),
            store::not_null_conflict(value::nodes_view(ns@), label@, p@, 0)
                == store::not_null_conflict(value::nodes_view(ns@), label@, p@, i as int),
        decreases ns.len() - i,
    {
        proof {
            assert(value::nodes_view(ns@)[i as int] == ns@[i as int]@);
        }
        if !ns[i].properties.contains_key(p) {
            let node = join3(
                "NOT NULL constraint violation: node ",
                u64_text(ns[i].id).as_str(),
                " with label ",
            );
            return Some(
                join2(join3(node.as_str(), label, " is missing property ").as_str(), p),
            );
        }
        i += 1;
    }
    None
}

/// The first property of a list that is not there.
fn find_missing<'a>(props: &PropertyMap, ps: &'a Vec<String>) -> (r: Option<&'a String>)
    ensures
        (match r {
            Some(p) => Some(p@),
            None => None,
        }) == store::missing_prop(props@, text::texts_view(ps@), 0),
{
    let mut i: usize = 0;
    while i < ps.len()
        invariant
            i <= ps.len(),
            store::missing_prop(props@, text::texts_view(ps@), 0) == store::missing_prop(
                props@,
                text::texts_view(ps@),
                i as int,
            ),
        decreases ps.len() - i,
    {
        if !props.contains_key(ps[i].as_str()) {
            return Some(&ps[i]);
        }
        i += 1;
    }
    None
}

fn has_same_key(a: &PropertyMap, b: &PropertyMap, ps: &Vec<String>) -> (r: bool)
    ensures
        r == store::same_node_key(a@, b@, text::texts_view(ps@), 0),
{
    let mut i: usize = 0;
    while i < ps.len()
        invariant
            i <= ps.len(),
            store::same_node_key(a@, b@, text::texts_view(ps@), 0) == store::same_node_key(
                a@,
                b@,
                text::texts_view(ps@),
                i as int,
            ),
        decreases ps.len() - i,
    {
        let same = match (a.get(ps[i].as_str()), b.get(ps[i].as_str())) {
            (Some(x), Some(y)) => same_key_value(x, y),
            (None, None) => true,
            _ => false,
        };
        if !same {
            return false;
        }
        i += 1;
    }
    true
}

fn earlier_with_key(ns: &Vec<Node>, ps: &Vec<String>, i: usize) -> (r: Option<usize>)
    requires
        i < ns.len(),
    ensures
        (match r {
            Some(j) => Some(j as int),
            None => None,
        }) == store::earlier_same_key(
            value::nodes_view(ns@),
            text::texts_view(ps@),
            0,
            i as int,
        ),
        r matches Some(j) ==> j < i,
{
    let mut j: usize = 0;
    while j < i
        invariant
            j <= i < ns.len(),
            store::earlier_same_key(value::nodes_view(ns@), text::texts_view(ps@), 0, i as int)
                == store::earlier_same_key(
                value::nodes_view(ns@),
                text::texts_view(ps@),
                j as int,
                i as int,
            ),
        decreases i - j,
    {
        proof {
            assert(value::nodes_view(ns@)[j as int] == ns@[j as int]@);
            assert(value::nodes_view(ns@)[i as int] == ns@[i as int]@);
        }
        if has_same_key(&ns[j].properties, &ns[i].properties, ps) {
            return Some(j);
        }
        j += 1;
    }
    None
}

/// Why nodes break a NODE KEY constraint.
pub fn find_node_key_conflict(ns: &Vec<Node>, label: &str, ps: &Vec<String>) -> (r: Option<String>)
    ensures
        ast::opt_text(r) == store::node_key_conflict(
            value::nodes_view(ns@),
            label@,
            text::texts_view(ps@),
            0,
        ),
{
    let mut i: usize = 0;
    while i < ns.len()
        invariant
            i <= ns.len(),
            store::node_key_conflict(value::nodes_view(ns@), label@, text::texts_view(ps@), 0)
                == store::node_key_conflict(
                value::nodes_view(ns@),
                label@,
                text::texts_view(ps@),
                i as int,
            ),
        decreases ns.len() - i,
    {
        proof {
            assert(value::nodes_view(ns@)[i as int] == ns@[i as int]@);
        }
        if let Some(p) = find_missing(&ns[i].properties, ps) {
            let node = join3(
                "NODE KEY constraint violation: node ",
                u64_text(ns[i].id).as_str(),
                " with label ",
            );
            return Some(
                join2(
                    join3(node.as_str(), label, " is missing property ").as_str(),
                    p.as_str(),
                ),
            );
        }
        if let Some(j) = earlier_with_key(ns, ps, i) {
            let nodes = join3(
                join3(
                    "NODE KEY constraint violation: nodes ",
                    u64_text(ns[j].id).as_str(),
                    " and ",
                ).as_str(),
                u64_text(ns[i].id).as_str(),
                " both have the same key for label ",
            );
            proof {
                assert(value::nodes_view(ns@)[j as int] == ns@[j as int]@);
            }
            return Some(join2(nodes.as_str(), label));
        }
        i += 1;
    }
    None
}

/// Whether one of the nodes has the key of the properties.
pub fn is_key_taken(ns: &Vec<Node>, props: &PropertyMap, ps: &Vec<String>) -> (r: bool)
    ensures
        r == store::key_taken(value::nodes_view(ns@), props@, text::texts_view(ps@), 0),
{
    let mut i: usize = 0;
    while i < ns.len()
        invariant
            i <= ns.len(),
            store::key_taken(value::nodes_view(ns@), props@, text::texts_view(ps@), 0)
                == store::key_taken(
                value::nodes_view(ns@),
                props@,
                text::texts_view(ps@),
                i as int,
            ),
        decreases ns.len() - i,
    {
        proof {
            assert(value::nodes_view(ns@)[i as int] == ns@[i as int]@);
        }
        if has_same_key(props, &ns[i].properties, ps) {
            return true;
        }
        i += 1;
    }
    false
}

/// Whether a property value is of the named type.
pub fn property_value_matches_type(v: &PropertyValue, name: &str) -> (r: bool)
    ensures
        r == store::is_of_type(v@, name@),
{
    if same_text(name, "BOOLEAN") {
        match v {
            PropertyValue::Bool(_) => true,
            _ => false,
        }
    } else if same_text(name, "STRING") {
        match v {
            PropertyValue::String(_) => true,
            _ => false,
        }
    } else if same_text(name, "INTEGER") {
        match v {
            PropertyValue::Int(_) => true,
            _ => false,
        }
    } else if same_text(name, "FLOAT") {
        match v {
            PropertyValue::Float(_) => true,
            _ => false,
        }
    } else {
        false
    }
}

/// Why nodes break a PROPERTY TYPE constraint.
pub fn find_type_conflict(ns: &Vec<Node>, label: &str, p: &str, name: &str) -> (r: Option<String>)
    ensures
        ast::opt_text(r) == store::type_conflict(
            value::nodes_view(ns@),
            label@,
            p@,
            name@,
            0,
        ),
{
    let mut i: usize = 0;
    while i < ns.len()
        invariant
            i <= ns.len(),
            store::type_conflict(value::nodes_view(ns@), label@, p@, name@, 0)
                == store::type_conflict(value::nodes_view(ns@), label@, p@, name@, i as int),
        decreases ns.len() - i,
    {
        proof {
            assert(value::nodes_view(ns@)[i as int] == ns@[i as int]@);
        }
        if let Some(v) = ns[i].properties.get(p) {
            if !property_value_matches_type(v, name) {
                let node = join3(
                    "PROPERTY TYPE constraint violation: node ",
                    u64_text(ns[i].id).as_str(),
                    " property ",
                );
                let place = join3(
                    join3(node.as_str(), label, ":").as_str(),
                    p,
                    " has wrong type (expected ",
                );
                return Some(join3(place.as_str(), name, ")"));
            }
        }
        i += 1;
    }
    None
}

/// Why a new node would break a NOT NULL constraint.
pub fn find_not_null_breach(
    cs: &Vec<(String, String)>,
    labels: &Vec<String>,
    props: &PropertyMap,
) -> (r: Option<String>)
    ensures
        ast::opt_text(r) == store::not_null_breach(
            backend::text_pairs(cs@),
            text::texts_view(labels@),
            props@,
            0,
        ),
{
    let mut i: usize = 0;
    while i < labels.len()
        invariant
            i <= labels.len(),
            store::not_null_breach(
                backend::text_pairs(cs@),
                text::texts_view(labels@),
                props@,
                0,
            ) == store::not_null_breach(
                backend::text_pairs(cs@),
                text::texts_view(labels@),
                props@,
                i as int,
            ),
        decreases labels.len() - i,
    {
        let ghost l = text::texts_view(labels@)[i as int];
        let mut j: usize = 0;
        while j < cs.len()
            invariant
                i < labels.len(),
                j <= cs.len(),
                l == labels@[i as int]@,
                store::not_null_breach(
                    backend::text_pairs(cs@),
                    text::texts_view(labels@),
                    props@,
                    0,
                ) == store::not_null_breach(
                    backend::text_pairs(cs@),
                    text::texts_view(labels@),
                    props@,
                    i as int,
                ),
                store::not_null_breach_of(backend::text_pairs(cs@), l, props@, 0)
                    == store::not_null_breach_of(
                    backend::text_pairs(cs@),
                    l,
                    props@,
                    j as int,
                ),
            decreases cs.len() - j,
        {
            proof {
                assert(backend::text_pairs(cs@)[j as int] == (
                    cs@[j as int].0@,
                    cs@[j as int].1@,
                ));
            }
            if same_text(cs[j].0.as_str(), labels[i].as_str()) && !props.contains_key(
                cs[j].1.as_str(),
            ) {
                let place = join3(
                    "NOT NULL constraint violation on ",
                    labels[i].as_str(),
                    ":",
                );
                return Some(
                    join3(place.as_str(), cs[j].1.as_str(), ": property is required"),
                );
            }
            j += 1;
        }
        i += 1;
    }
    None
}

/// The views of type constraints.
pub open spec fn text_triples(s: Seq<(String, String, String)>) -> Seq<
    (Seq<char>, Seq<char>, Seq<char>),
> {
    Seq::new(s.len(), |i: int| (s[i].0@, s[i].1@, s[i].2@))
}

/// Why a new node would break a PROPERTY TYPE constraint.
pub fn find_type_breach(
    cs: &Vec<(String, String, String)>,
    labels: &Vec<String>,
    props: &PropertyMap,
) -> (r: Option<String>)
    ensures
        ast::opt_text(r) == store::type_breach(
            text_triples(cs@),
            text::texts_view(labels@),
            props@,
            0,
        ),
{
    let mut i: usize = 0;
    while i < labels.len()
        invariant
            i <= labels.len(),
            store::type_breach(text_triples(cs@), text::texts_view(labels@), props@, 0)
                == store::type_breach(
                text_triples(cs@),
                text::texts_view(labels@),
                props@,
                i as int,
            ),
        decreases labels.len() - i,
    {
        let ghost l = text::texts_view(labels@)[i as int];
        let mut j: usize = 0;
        while j < cs.len()
            invariant
                i < labels.len(),
                j <= cs.len(),
                l == labels@[i as int]@,
                store::type_breach(text_triples(cs@), text::texts_view(labels@), props@, 0)
                    == store::type_breach(
                    text_triples(cs@),
                    text::texts_view(labels@),
                    props@,
                    i as int,
                ),
                store::type_breach_of(text_triples(cs@), l, props@, 0) == store::type_breach_of(
                    text_triples(cs@),
                    l,
                    props@,
                    j as int,
                ),
            decreases cs.len() - j,
        {
            proof {
                assert(text_triples(cs@)[j as int] == (
                    cs@[j as int].0@,
                    cs@[j as int].1@,
                    cs@[j as int].2@,
                ));
            }
            if same_text(cs[j].0.as_str(), labels[i].as_str()) {
                if let Some(v) = props.get(cs[j].1.as_str()) {
                    if !property_value_matches_type(v, cs[j].2.as_str()) {
                        let place = join3(
                            "PROPERTY TYPE constraint violation on ",
                            labels[i].as_str(),
                            ":",
                        );
                        return Some(
                            join2(
                                join3(
                                    place.as_str(),
                                    cs[j].1.as_str(),
                                    ": expected type ",
                                ).as_str(),
                                cs[j].2.as_str(),
                            ),
                        );
                    }
                }
            }
            j += 1;
        }
        i += 1;
    }
    None
}

/// Why a new node with a label would break a NODE KEY constraint, given the
/// nodes with that label and the properties of the key.
pub open spec fn one_key_breach(
    ns: Seq<value::NodeV>,
    label: Seq<char>,
    props: PropsV,
    ps: Seq<Seq<char>>,
) -> Option<RefusalV> {
    match store::missing_prop(props, ps, 0) {
        Some(p) => Some(
            RefusalV::Plain(
                "NODE KEY constraint violation on "@ + label + ":"@ + p + ": property is required"@,
            ),
        ),
        None => if store::key_taken(ns, props, ps, 0) {
            Some(RefusalV::KeyTaken { label, values: store::key_values(props, ps) })
        } else {
            None
        },
    }
}

/// The values of the properties of a key.
fn values_of_key(props: &PropertyMap, ps: &Vec<String>) -> (r: Vec<Option<PropertyValue>>)
    ensures
        refusal::opt_props(r@) == store::key_values(props@, text::texts_view(ps@)),
{
    let mut out: Vec<Option<PropertyValue>> = Vec::new();
    let mut i: usize = 0;
    while i < ps.len()
        invariant
            i <= ps.len(),
            out@.len() == i,
            forall|j: int|
                0 <= j < i ==> refusal::opt_prop(#[trigger] out@[j]) == assoc::lookup(
                    props@,
                    text::texts_view(ps@)[j],
                ),
        decreases ps.len() - i,
    {
        let v = match props.get(ps[i].as_str()) {
            Some(p) => Some(p.clone()),
            None => None,
        };
        out.push(v);
        i += 1;
    }
    proof {
        assert(refusal::opt_props(out@) =~= store::key_values(props@, text::texts_view(ps@)));
    }
    out
}

pub fn find_key_breach(ns: &Vec<Node>, label: &str, props: &PropertyMap, ps: &Vec<String>) -> (r:
    Option<Refusal>)
    ensures
        opt_refusal(r) == one_key_breach(
            value::nodes_view(ns@),
            label@,
            props@,
            text::texts_view(ps@),
        ),
{
    if let Some(p) = find_missing(props, ps) {
        let place = join3("NODE KEY constraint violation on ", label, ":");
        return Some(
            Refusal::Plain(join3(place.as_str(), p.as_str(), ": property is required")),
        );
    }
    if is_key_taken(ns, props, ps) {
        return Some(
            Refusal::KeyTaken { label: label.to_owned(), values: values_of_key(props, ps) },
        );
    }
    None
}

} // verus!
