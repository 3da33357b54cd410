//! Values and results as JSON values.
use crate::assoc;
use crate::display::{self, date_to_display, time_to_display};
use crate::error::{self, CypherError};
use crate::executor::{self, QueryResult, ResultRow, ResultV};
use crate::number;
use crate::text::{self, join2, same_text, u64_text};
use crate::value::{
    self, CypherValue, Edge, EdgeV, Node, NodeV, Parameters, PropV, PropertyMap, PropertyValue,
    PropsV, RecV, ValV, ValueMap,
};
use vstd::prelude::*;

verus! {

/// A JSON value. A number is a whole number where it fits, else the bits of a
/// floating-point number.
#[derive(Debug, PartialEq)]
pub enum Json {
    Null,
    Bool(bool),
    Integer(i64),
    Unsigned(u64),
    Float(u64),
    Text(String),
    List(Vec<Json>),
    Object(Vec<(String, Json)>),
}

/// The view of a `Json`.
pub enum JsonV {
    Null,
    Bool(bool),
    Integer(i64),
    Unsigned(u64),
    Float(u64),
    Text(Seq<char>),
    List(Seq<JsonV>),
    Object(Seq<(Seq<char>, JsonV)>),
}

impl Json {
    pub open spec fn view(&self) -> JsonV
        decreases self,
    {
        match self {
            Json::Null => JsonV::Null,
            Json::Bool(b) => JsonV::Bool(*b),
            Json::Integer(i) => JsonV::Integer(*i),
            Json::Unsigned(u) => JsonV::Unsigned(*u),
            Json::Float(b) => JsonV::Float(*b),
            Json::Text(s) => JsonV::Text(s@),
            Json::List(items) => JsonV::List(items_view(items@)),
            Json::Object(m) => JsonV::Object(members_view(m@)),
        }
    }
}

pub open spec fn items_view(s: Seq<Json>) -> Seq<JsonV>
    decreases s,
{
    Seq::new(
        s.len(),
        |i: int|
            if 0 <= i < s.len() {
                s[i].view()
            } else {
                JsonV::Null
            },
    )
}

pub open spec fn members_view(s: Seq<(String, Json)>) -> Seq<(Seq<char>, JsonV)>
    decreases s,
{
    Seq::new(
        s.len(),
        |i: int|
            if 0 <= i < s.len() {
                (s[i].0@, s[i].1.view())
            } else {
                arbitrary()
            },
    )
}

// ---------------------------------------------------------------------------
// From JSON
// ---------------------------------------------------------------------------

/// The value that a JSON value stands for. A whole number that is too large
/// for an integer becomes the nearest floating-point number.
pub open spec fn value_of(j: JsonV) -> ValV
    decreases j,
{
    match j {
        JsonV::Null => ValV::Null,
        JsonV::Bool(b) => ValV::Boolean(b),
        JsonV::Integer(i) => ValV::Integer(i),
        JsonV::Unsigned(u) => if u <= i64::MAX {
            ValV::Integer(u as i64)
        } else {
            ValV::Float(number::int_as_float(u as int) as u64)
        },
        JsonV::Float(b) => ValV::Float(b),
        JsonV::Text(s) => ValV::Str(s),
        JsonV::List(items) => ValV::List(values_of(items)),
        JsonV::Object(m) => ValV::Dict(entries_of(m, m.len() as int)),
    }
}

/// The values that the items of an array stand for.
pub open spec fn values_of(items: Seq<JsonV>) -> Seq<ValV>
    decreases items,
{
    Seq::new(
        items.len(),
        |i: int|
            if 0 <= i < items.len() {
                value_of(items[i])
            } else {
                arbitrary()
            },
    )
}

/// The entries that the first `n` members of an object stand for. Of members
/// with one name the last counts.
pub open spec fn entries_of(m: Seq<(Seq<char>, JsonV)>, n: int) -> RecV
    decreases m, n,
{
    if n <= 0 || n > m.len() {
        seq![]
    } else {
        assoc::bind(entries_of(m, n - 1), m[n - 1].0, value_of(m[n - 1].1))
    }
}

/// The value that a JSON value stands for.
pub fn json_to_cypher_value(j: &Json) -> (r: CypherValue)
    ensures
        r@ == value_of(j@),
    decreases j,
{
    match j {
        Json::Null => CypherValue::Null,
        Json::Bool(b) => CypherValue::Boolean(*b),
        Json::Integer(i) => CypherValue::Integer(*i),
        Json::Unsigned(u) => if *u <= 0x7fff_ffff_ffff_ffff {
            CypherValue::Integer(*u as i64)
        } else {
            CypherValue::Float(number::float_of_unsigned(*u))
        },
        Json::Float(b) => CypherValue::Float(*b),
        Json::Text(s) => CypherValue::String(s.clone()),
        Json::List(items) => CypherValue::List(read_items(items)),
        Json::Object(m) => CypherValue::MapValue(read_members(m)),
    }
}

fn read_items(items: &Vec<Json>) -> (r: Vec<CypherValue>)
    ensures
        value::vals_view(r@) == values_of(items_view(items@)),
    decreases items,
{
    let mut out: Vec<CypherValue> = Vec::new();
    let mut i: usize = 0;
    while i < items.len()
        invariant
            i <= items.len(),
            out@.len() == i,
            forall|j: int| 0 <= j < i ==> (#[trigger] out@[j])@ == value_of(items_view(items@)[j]),
        decreases items.len() - i,
    {
        proof {
            assert(items_view(items@)[i as int] == items@[i as int]@);
        }
        let v = json_to_cypher_value(&items[i]);
        out.push(v);
        i += 1;
    }
    proof {
        assert(value::vals_view(out@) =~= values_of(items_view(items@)));
    }
    out
}

fn read_members(m: &Vec<(String, Json)>) -> (r: ValueMap)
    ensures
        r@ == entries_of(members_view(m@), m@.len() as int),
    decreases m,
{
    let mut out = ValueMap::new();
    let mut i: usize = 0;
    while i < m.len()
        invariant
            i <= m.len(),
            out@ == entries_of(members_view(m@), i as int),
        decreases m.len() - i,
    {
        proof {
            assert(members_view(m@)[i as int] == (m@[i as int].0@, m@[i as int].1@));
        }
        let v = json_to_cypher_value(&m[i].1);
        out.insert(m[i].0.clone(), v);
        i += 1;
    }
    out
}

/// The parameters that a JSON value gives. Only an object gives any.
pub open spec fn parameters_of(j: JsonV) -> Option<RecV> {
    match j {
        JsonV::Object(m) => Some(entries_of(m, m.len() as int)),
        _ => None,
    }
}

/// The parameters that a JSON value gives.
pub fn read_parameters(j: &Json) -> (r: Option<Parameters>)
    ensures
        match r {
            Some(p) => parameters_of(j@) == Some(p@),
            None => parameters_of(j@) is None,
        },
{
    match j {
        Json::Object(m) => Some(read_members(m)),
        _ => None,
    }
}

// ---------------------------------------------------------------------------
// JSON texts
// ---------------------------------------------------------------------------

/// A JSON value of `serde_json`.
#[verifier::external_type_specification]
#[verifier::external_body]
pub struct ExValue(serde_json::Value);

/// What a JSON value of `serde_json` holds.
pub uninterp spec fn json_held(v: serde_json::Value) -> JsonV;

/// What `serde_json::from_str` makes of a text: what the JSON value holds, or
/// the message of the error.
pub uninterp spec fn json_parsed(text: Seq<char>) -> Result<JsonV, Seq<char>>;

/// `serde_json::from_str`, to a `serde_json::Value`: a function of the text
/// alone. Which texts it takes, and what the messages are, is not said.
#[verifier::external_body]
fn parse_value(text: &str) -> (r: Result<serde_json::Value, String>)
    ensures
        match r {
            Ok(v) => json_parsed(text@) == Ok::<JsonV, Seq<char>>(json_held(v)),
            Err(e) => json_parsed(text@) == Err::<JsonV, Seq<char>>(e@),
        },
{
    match serde_json::from_str::<serde_json::Value>(text) {
        Ok(v) => Ok(v),
        Err(e) => Err(e.to_string()),
    }
}

/// The parts of a JSON value of `serde_json`. A number is given as the integers
/// and as the floating-point bits that it can be taken for.
enum Parts<'a> {
    Null,
    Bool(bool),
    Number(Option<i64>, Option<u64>, Option<u64>),
    Text(&'a String),
    List(&'a Vec<serde_json::Value>),
    Object(Vec<(&'a String, &'a serde_json::Value)>),
}

/// What several JSON values hold.
pub open spec fn items_held(s: Seq<serde_json::Value>) -> Seq<JsonV> {
    Seq::new(s.len(), |i: int| json_held(s[i]))
}

/// What the members of an object hold.
pub open spec fn members_held(s: Seq<(&String, &serde_json::Value)>) -> Seq<(Seq<char>, JsonV)> {
    Seq::new(s.len(), |i: int| (s[i].0@, json_held(*s[i].1)))
}

/// A number is an integer where it can be taken for one.
pub open spec fn number_held(i: Option<i64>, u: Option<u64>, bits: Option<u64>) -> JsonV {
    match (i, u, bits) {
        (Some(x), _, _) => JsonV::Integer(x),
        (None, Some(x), _) => JsonV::Unsigned(x),
        (None, None, Some(x)) => JsonV::Float(x),
        (None, None, None) => JsonV::Float(0),
    }
}

/// The variants of `serde_json::Value`, one by one: a value holds what its
/// parts hold, and a number what `serde_json::Number::as_i64`, `as_u64` and
/// `as_f64` give of it. The members of an object come in the order of its map.
#[verifier::external_body]
fn parts_of<'a>(v: &'a serde_json::Value) -> (r: Parts<'a>)
    ensures
        match r {
            Parts::Null => json_held(*v) == JsonV::Null,
            Parts::Bool(b) => json_held(*v) == JsonV::Bool(b),
            Parts::Number(i, u, bits) => json_held(*v) == number_held(i, u, bits),
            Parts::Text(s) => json_held(*v) == JsonV::Text(s@),
            Parts::List(a) => json_held(*v) == JsonV::List(items_held(a@)),
            Parts::Object(m) => json_held(*v) == JsonV::Object(members_held(m@)),
        },
{
    match v {
        serde_json::Value::Null => Parts::Null,
        serde_json::Value::Bool(b) => Parts::Bool(*b),
        serde_json::Value::Number(n) => {
            Parts::Number(n.as_i64(), n.as_u64(), n.as_f64().map(|x| x.to_bits()))
        },
        serde_json::Value::String(s) => Parts::Text(s),
        serde_json::Value::Array(a) => Parts::List(a),
        serde_json::Value::Object(m) => Parts::Object(m.iter().collect()),
    }
}

/// A JSON value of `serde_json` as a value of the library.
fn held_json(v: &serde_json::Value) -> (r: Json)
    ensures
        r@ == json_held(*v),
    decreases json_held(*v),
{
    match parts_of(v) {
        Parts::Null => Json::Null,
        Parts::Bool(b) => Json::Bool(b),
        Parts::Number(i, u, bits) => match (i, u, bits) {
            (Some(x), _, _) => Json::Integer(x),
            (None, Some(x), _) => Json::Unsigned(x),
            (None, None, Some(x)) => Json::Float(x),
            (None, None, None) => Json::Float(0),
        },
        Parts::Text(s) => Json::Text(s.clone()),
        Parts::List(a) => {
            let mut out: Vec<Json> = Vec::new();
            let mut i: usize = 0;
            while i < a.len()
                invariant
                    i <= a.len(),
                    json_held(*v) == JsonV::List(items_held(a@)),
                    out@.len() == i,
                    forall|j: int| 0 <= j < i ==> (#[trigger] out@[j])@ == json_held(a@[j]),
                decreases a.len() - i,
            {
                proof {
                    let held = json_held(*v);
                    assert(held->List_0[i as int] == json_held(a@[i as int]));
                    assert(decreases_to!(held => held->List_0[i as int]));
                }
                let x = held_json(&a[i]);
                out.push(x);
                i += 1;
            }
            proof {
                assert(items_view(out@) =~= items_held(a@));
            }
            Json::List(out)
        },
        Parts::Object(m) => {
            let mut out: Vec<(String, Json)> = Vec::new();
            let mut i: usize = 0;
            while i < m.len()
                invariant
                    i <= m.len(),
                    json_held(*v) == JsonV::Object(members_held(m@)),
                    out@.len() == i,
                    forall|j: int|
                        0 <= j < i ==> (#[trigger] out@[j]).0@ == m@[j].0@ && out@[j].1@
                            == json_held(*m@[j].1),
                decreases m.len() - i,
            {
                proof {
                    let held = json_held(*v);
                    assert(held->Object_0[i as int].1 == json_held(*m@[i as int].1));
                    assert(decreases_to!(held => held->Object_0[i as int].1));
                }
                let x = held_json(m[i].1);
                out.push((m[i].0.clone(), x));
                i += 1;
            }
            proof {
                assert(members_view(out@) =~= members_held(m@));
            }
            Json::Object(out)
        },
    }
}

/// Reads a JSON text.
pub fn parse_json(text: &str) -> (r: Result<Json, String>)
    ensures
        match r {
            Ok(j) => json_parsed(text@) == Ok::<JsonV, Seq<char>>(j@),
            Err(e) => json_parsed(text@) == Err::<JsonV, Seq<char>>(e@),
        },
{
    match parse_value(text) {
        Ok(v) => Ok(held_json(&v)),
        Err(e) => Err(e),
    }
}

/// The parameters that a JSON text gives, from what was made of the text.
pub open spec fn parameters_from(parsed: Result<JsonV, Seq<char>>) -> Result<RecV, Seq<char>> {
    match parsed {
        Err(e) => Err("invalid params_json: "@ + e),
        Ok(j) => match parameters_of(j) {
            Some(p) => Ok(p),
            None => Err("params_json must be a JSON object"@),
        },
    }
}

/// The parameters that a JSON text gives, from what was made of the text.
pub fn take_parameters(parsed: Result<Json, String>) -> (r: Result<Parameters, String>)
    ensures
        (match r {
            Ok(p) => Ok::<RecV, Seq<char>>(p@),
            Err(e) => Err(e@),
        }) == parameters_from(
            match parsed {
                Ok(j) => Ok::<JsonV, Seq<char>>(j@),
                Err(e) => Err(e@),
            },
        ),
{
    match parsed {
        Err(e) => Err(join2("invalid params_json: ", e.as_str())),
        Ok(j) => match read_parameters(&j) {
            Some(p) => Ok(p),
            None => Err("params_json must be a JSON object".to_owned()),
        },
    }
}

/// The parameters that a JSON text gives.
pub fn parse_parameters(text: &str) -> (r: Result<Parameters, String>)
    ensures
        (match r {
            Ok(p) => Ok::<RecV, Seq<char>>(p@),
            Err(e) => Err(e@),
        }) == parameters_from(json_parsed(text@)),
{
    take_parameters(parse_json(text))
}

// ---------------------------------------------------------------------------
// To JSON
// ---------------------------------------------------------------------------

/// A floating-point number as JSON, which has no infinities.
pub open spec fn float_json(b: u64) -> JsonV {
    if number::is_nan(b) || number::is_infinite(b) {
        JsonV::Null
    } else {
        JsonV::Float(b)
    }
}

/// A property as JSON.
pub open spec fn prop_json(p: PropV) -> JsonV {
    match p {
        PropV::Str(s) => JsonV::Text(s),
        PropV::Int(i) => JsonV::Integer(i),
        PropV::Float(b) => float_json(b),
        PropV::Bool(b) => JsonV::Bool(b),
    }
}

/// Properties as an object.
pub open spec fn props_json(props: PropsV) -> JsonV {
    JsonV::Object(Seq::new(props.len(), |i: int| (props[i].0, prop_json(props[i].1))))
}

/// Texts as an array.
pub open spec fn texts_json(s: Seq<Seq<char>>) -> JsonV {
    JsonV::List(Seq::new(s.len(), |i: int| JsonV::Text(s[i])))
}

/// A node as an object.
pub open spec fn node_json(n: NodeV) -> JsonV {
    JsonV::Object(
        seq![
            ("_id"@, JsonV::Unsigned(n.id)),
            ("_labels"@, texts_json(n.labels)),
            ("_properties"@, props_json(n.properties)),
        ],
    )
}

/// A relationship as an object.
pub open spec fn edge_json(e: EdgeV) -> JsonV {
    JsonV::Object(
        seq![
            ("_id"@, JsonV::Unsigned(e.id)),
            ("_type"@, JsonV::Text(e.label)),
            ("_src"@, JsonV::Unsigned(e.src)),
            ("_dst"@, JsonV::Unsigned(e.dst)),
            ("_properties"@, props_json(e.properties)),
        ],
    )
}

/// A value as JSON.
pub open spec fn json_of(v: ValV) -> JsonV
    decreases v,
{
    match v {
        ValV::Null => JsonV::Null,
        ValV::Boolean(b) => JsonV::Bool(b),
        ValV::Integer(i) => JsonV::Integer(i),
        ValV::Float(b) => float_json(b),
        ValV::Str(s) => JsonV::Text(s),
        ValV::List(items) => JsonV::List(jsons_of(items)),
        ValV::Dict(m) => JsonV::Object(members_of(m)),
        ValV::Node(n) => node_json(n),
        ValV::Relationship(e) => edge_json(e),
        ValV::Path(_) => JsonV::Text("Path(...)"@),
        ValV::Date(d) => JsonV::Text(display::date_shown(d, display::calendar_date(d))),
        ValV::Timestamp(s, n) => JsonV::Text(
            display::time_shown(s, n, display::universal_time(s, n)),
        ),
    }
}

/// The values of a list as JSON.
pub open spec fn jsons_of(items: Seq<ValV>) -> Seq<JsonV>
    decreases items,
{
    Seq::new(
        items.len(),
        |i: int|
            if 0 <= i < items.len() {
                json_of(items[i])
            } else {
                arbitrary()
            },
    )
}

/// The entries of a map as members.
pub open spec fn members_of(m: RecV) -> Seq<(Seq<char>, JsonV)>
    decreases m,
{
    Seq::new(
        m.len(),
        |i: int|
            if 0 <= i < m.len() {
                (m[i].0, json_of(m[i].1))
            } else {
                arbitrary()
            },
    )
}

fn write_float(b: u64) -> (r: Json)
    ensures
        r@ == float_json(b),
{
    if number::nan(b) || number::infinite(b) {
        Json::Null
    } else {
        Json::Float(b)
    }
}

/// A property as JSON.
pub fn property_value_to_json(p: &PropertyValue) -> (r: Json)
    ensures
        r@ == prop_json(p@),
{
    match p {
        PropertyValue::String(s) => Json::Text(s.clone()),
        PropertyValue::Int(i) => Json::Integer(*i),
        PropertyValue::Float(b) => write_float(*b),
        PropertyValue::Bool(b) => Json::Bool(*b),
    }
}

fn write_props(props: &PropertyMap) -> (r: Json)
    ensures
        r@ == props_json(props@),
{
    let mut out: Vec<(String, Json)> = Vec::new();
    let mut i: usize = 0;
    while i < props.entries.len()
        invariant
            i <= props.entries.len(),
            out@.len() == i,
            forall|j: int|
                0 <= j < i ==> (#[trigger] out@[j]).0@ == props@[j].0 && out@[j].1@ == prop_json(
                    props@[j].1,
                ),
        decreases props.entries.len() - i,
    {
        let v = property_value_to_json(&props.entries[i].1);
        let k = props.entries[i].0.clone();
        out.push((k, v));
        i += 1;
    }
    proof {
        let p = props@;
        assert(members_view(out@) =~= Seq::new(p.len(), |i: int| (p[i].0, prop_json(p[i].1))));
    }
    Json::Object(out)
}

fn write_texts(v: &Vec<String>) -> (r: Json)
    ensures
        r@ == texts_json(text::texts_view(v@)),
{
    let mut out: Vec<Json> = Vec::new();
    let mut i: usize = 0;
    while i < v.len()
        invariant
            i <= v.len(),
            out@.len() == i,
            forall|j: int| 0 <= j < i ==> (#[trigger] out@[j])@ == JsonV::Text(v@[j]@),
        decreases v.len() - i,
    {
        out.push(Json::Text(v[i].clone()));
        i += 1;
    }
    proof {
        let s = text::texts_view(v@);
        assert(items_view(out@) =~= Seq::new(s.len(), |i: int| JsonV::Text(s[i])));
    }
    Json::List(out)
}

fn add_member(m: &mut Vec<(String, Json)>, name: &str, j: Json)
    ensures
        members_view(final(m)@) == members_view(old(m)@).push((name@, j@)),
{
    let ghost before = m@;
    let key = name.to_owned();
    m.push((key, j));
    proof {
        assert(members_view(m@) =~= members_view(before).push((name@, j@)));
    }
}

fn no_members() -> (r: Vec<(String, Json)>)
    ensures
        members_view(r@) == Seq::<(Seq<char>, JsonV)>::empty(),
{
    let r: Vec<(String, Json)> = Vec::new();
    proof {
        assert(members_view(r@) =~= Seq::<(Seq<char>, JsonV)>::empty());
    }
    r
}

fn write_node(n: &Node) -> (r: Json)
    ensures
        r@ == node_json(n@),
{
    let mut m = no_members();
    add_member(&mut m, "_id", Json::Unsigned(n.id));
    add_member(&mut m, "_labels", write_texts(&n.labels));
    add_member(&mut m, "_properties", write_props(&n.properties));
    proof {
        assert(members_view(m@) =~= node_json(n@)->Object_0);
    }
    Json::Object(m)
}

fn write_edge(e: &Edge) -> (r: Json)
    ensures
        r@ == edge_json(e@),
{
    let mut m = no_members();
    add_member(&mut m, "_id", Json::Unsigned(e.id));
    add_member(&mut m, "_type", Json::Text(e.label.clone()));
    add_member(&mut m, "_src", Json::Unsigned(e.src));
    add_member(&mut m, "_dst", Json::Unsigned(e.dst));
    add_member(&mut m, "_properties", write_props(&e.properties));
    proof {
        assert(members_view(m@) =~= edge_json(e@)->Object_0);
    }
    Json::Object(m)
}

/// A value as JSON.
pub fn cypher_value_to_json(v: &CypherValue) -> (r: Json)
    ensures
        r@ == json_of(v@),
    decreases v,
{
    match v {
        CypherValue::Null => Json::Null,
        CypherValue::Boolean(b) => Json::Bool(*b),
        CypherValue::Integer(i) => Json::Integer(*i),
        CypherValue::Float(b) => write_float(*b),
        CypherValue::String(s) => Json::Text(s.clone()),
        CypherValue::List(items) => Json::List(write_items(items)),
        CypherValue::MapValue(m) => Json::Object(write_members(&m.entries)),
        CypherValue::Node(n) => write_node(n),
        CypherValue::Relationship(e) => write_edge(e),
        CypherValue::Path(_) => Json::Text("Path(...)".to_owned()),
        CypherValue::Date(d) => Json::Text(date_to_display(*d)),
        CypherValue::Timestamp(s, n) => Json::Text(time_to_display(*s, *n)),
    }
}

fn write_items(items: &Vec<CypherValue>) -> (r: Vec<Json>)
    ensures
        items_view(r@) == jsons_of(value::vals_view(items@)),
    decreases items,
{
    let mut out: Vec<Json> = Vec::new();
    let mut i: usize = 0;
    while i < items.len()
        invariant
            i <= items.len(),
            out@.len() == i,
            forall|j: int|
                0 <= j < i ==> (#[trigger] out@[j])@ == json_of(value::vals_view(items@)[j]),
        decreases items.len() - i,
    {
        proof {
            assert(value::vals_view(items@)[i as int] == items@[i as int]@);
        }
        let j = cypher_value_to_json(&items[i]);
        out.push(j);
        i += 1;
    }
    proof {
        assert(items_view(out@) =~= jsons_of(value::vals_view(items@)));
    }
    out
}

fn write_members(m: &Vec<(String, CypherValue)>) -> (r: Vec<(String, Json)>)
    ensures
        members_view(r@) == members_of(value::pairs_view(m@)),
    decreases m,
{
    let mut out: Vec<(String, Json)> = Vec::new();
    let mut i: usize = 0;
    while i < m.len()
        invariant
            i <= m.len(),
            out@.len() == i,
            forall|j: int|
                0 <= j < i ==> (#[trigger] out@[j]).0@ == value::pairs_view(m@)[j].0 && out@[j].1@
                    == json_of(value::pairs_view(m@)[j].1),
        decreases m.len() - i,
    {
        proof {
            assert(value::pairs_view(m@)[i as int] == (m@[i as int].0@, m@[i as int].1@));
        }
        let j = cypher_value_to_json(&m[i].1);
        let k = m[i].0.clone();
        out.push((k, j));
        i += 1;
    }
    proof {
        assert(members_view(out@) =~= members_of(value::pairs_view(m@)));
    }
    out
}

/// The rows of a result as an array of arrays.
pub open spec fn rows_json(rows: Seq<Seq<ValV>>) -> JsonV {
    JsonV::List(Seq::new(rows.len(), |i: int| JsonV::List(jsons_of(rows[i]))))
}

/// A result as an object of its columns and its rows.
pub open spec fn result_json(t: ResultV) -> JsonV {
    JsonV::Object(
        seq![("columns"@, texts_json(t.columns)), ("rows"@, rows_json(t.rows))],
    )
}

/// An error as an object.
pub open spec fn error_json(message: Seq<char>) -> JsonV {
    JsonV::Object(seq![("error"@, JsonV::Text(message))])
}

fn write_rows(rows: &Vec<ResultRow>) -> (r: Json)
    ensures
        r@ == rows_json(executor::rows_view(rows@)),
{
    let mut out: Vec<Json> = Vec::new();
    let mut i: usize = 0;
    while i < rows.len()
        invariant
            i <= rows.len(),
            out@.len() == i,
            forall|j: int|
                0 <= j < i ==> (#[trigger] out@[j])@ == JsonV::List(
                    jsons_of(executor::rows_view(rows@)[j]),
                ),
        decreases rows.len() - i,
    {
        let items = write_items(&rows[i].values);
        proof {
            assert(executor::rows_view(rows@)[i as int] == value::vals_view(
                rows@[i as int].values@,
            ));
        }
        out.push(Json::List(items));
        i += 1;
    }
    proof {
        let rv = executor::rows_view(rows@);
        assert(items_view(out@) =~= Seq::new(rv.len(), |i: int| JsonV::List(jsons_of(rv[i]))));
    }
    Json::List(out)
}

/// A result as JSON.
pub fn result_to_json(t: &QueryResult) -> (r: Json)
    ensures
        r@ == result_json(t@),
{
    let mut m = no_members();
    add_member(&mut m, "columns", write_texts(&t.columns));
    add_member(&mut m, "rows", write_rows(&t.rows));
    proof {
        assert(members_view(m@) =~= result_json(t@)->Object_0);
    }
    Json::Object(m)
}

/// An error as JSON.
pub fn error_to_json(e: &CypherError) -> (r: Json)
    ensures
        r@ == error_json(error::error_text(e@)),
{
    let mut m = no_members();
    add_member(&mut m, "error", Json::Text(e.to_string()));
    proof {
        assert(members_view(m@) =~= error_json(error::error_text(e@))->Object_0);
    }
    Json::Object(m)
}

// ---------------------------------------------------------------------------
// Rows as objects
// ---------------------------------------------------------------------------

/// The members of a row from its first `n` columns: each column with its
/// value as JSON. Of columns with one name the last counts.
pub open spec fn row_members(cols: Seq<Seq<char>>, row: Seq<ValV>, n: int) -> Seq<
    (Seq<char>, JsonV),
>
    decreases n,
{
    if n <= 0 || n > cols.len() {
        seq![]
    } else if n > row.len() {
        row_members(cols, row, n - 1)
    } else {
        assoc::bind(row_members(cols, row, n - 1), cols[n - 1], json_of(row[n - 1]))
    }
}

/// The rows of a result as an array of objects.
pub open spec fn objects_json(t: ResultV) -> JsonV {
    JsonV::List(
        Seq::new(
            t.rows.len(),
            |i: int| JsonV::Object(row_members(t.columns, t.rows[i], t.columns.len() as int)),
        ),
    )
}

/// Members with one more, in the place of the one with its name if there is
/// one.
fn put_member(m: &mut Vec<(String, Json)>, name: &str, j: Json)
    ensures
        members_view(final(m)@) == assoc::bind(members_view(old(m)@), name@, j@),
{
    let ghost before = m@;
    let mut i: usize = 0;
    while i < m.len()
        invariant
            i <= m.len(),
            m@ == before,
            before == old(m)@,
            assoc::position(members_view(before), name@) == assoc::position_from(
                members_view(before),
                name@,
                i as int,
            ),
        decreases m.len() - i,
    {
        proof {
            assert(members_view(before)[i as int] == (before[i as int].0@, before[i as int].1@));
        }
        if same_text(m[i].0.as_str(), name) {
            let key = name.to_owned();
            m.set(i, (key, j));
            proof {
                assert(members_view(m@) =~= members_view(before).update(i as int, (name@, j@)));
            }
            return;
        }
        i += 1;
    }
    add_member(m, name, j);
}

fn write_row_object(cols: &Vec<String>, row: &ResultRow) -> (r: Vec<(String, Json)>)
    ensures
        members_view(r@) == row_members(
            text::texts_view(cols@),
            value::vals_view(row.values@),
            cols@.len() as int,
        ),
{
    let mut m = no_members();
    let mut i: usize = 0;
    while i < cols.len()
        invariant
            i <= cols.len(),
            members_view(m@) == row_members(
                text::texts_view(cols@),
                value::vals_view(row.values@),
                i as int,
            ),
        decreases cols.len() - i,
    {
        if i < row.values.len() {
            proof {
                assert(value::vals_view(row.values@)[i as int] == row.values@[i as int]@);
            }
            put_member(&mut m, cols[i].as_str(), cypher_value_to_json(&row.values[i]));
        }
        i += 1;
    }
    m
}

/// The rows of a result as objects.
pub fn rows_to_json(t: &QueryResult) -> (r: Json)
    ensures
        r@ == objects_json(t@),
{
    let mut out: Vec<Json> = Vec::new();
    let mut i: usize = 0;
    while i < t.rows.len()
        invariant
            i <= t.rows.len(),
            out@.len() == i,
            forall|j: int|
                0 <= j < i ==> (#[trigger] out@[j])@ == JsonV::Object(
                    row_members(t@.columns, t@.rows[j], t@.columns.len() as int),
                ),
        decreases t.rows.len() - i,
    {
        let m = write_row_object(&t.columns, &t.rows[i]);
        out.push(Json::Object(m));
        i += 1;
    }
    proof {
        assert(items_view(out@) =~= objects_json(t@)->List_0);
    }
    Json::List(out)
}

// ---------------------------------------------------------------------------
// Strict JSON
// ---------------------------------------------------------------------------

/// How a floating-point number without a finite value is called.
pub open spec fn float_name(b: u64) -> Seq<char> {
    if number::is_nan(b) {
        "NaN"@
    } else if b >= number::SIGN_BIT {
        "-inf"@
    } else {
        "inf"@
    }
}

/// A floating-point number as JSON, if it is finite.
pub open spec fn strict_float(b: u64) -> Result<JsonV, Seq<char>> {
    if number::is_nan(b) || number::is_infinite(b) {
        Err("Non-finite float value: "@ + float_name(b))
    } else {
        Ok(JsonV::Float(b))
    }
}

/// A property as JSON, if it has a JSON form.
pub open spec fn strict_prop(p: PropV) -> Result<JsonV, Seq<char>> {
    match p {
        PropV::Float(b) => strict_float(b),
        _ => Ok(prop_json(p)),
    }
}

/// The first `n` properties as members, if they have JSON forms.
pub open spec fn strict_props(props: PropsV, n: int) -> Result<Seq<(Seq<char>, JsonV)>, Seq<char>>
    decreases n,
{
    if n <= 0 || n > props.len() {
        Ok(seq![])
    } else {
        match strict_props(props, n - 1) {
            Err(x) => Err(x),
            Ok(m) => match strict_prop(props[n - 1].1) {
                Ok(j) => Ok(m.push((props[n - 1].0, j))),
                Err(x) => Err(x),
            },
        }
    }
}

/// An identifier as a text, as not every reader of JSON keeps all digits of a
/// number.
pub open spec fn id_text(id: u64) -> JsonV {
    JsonV::Text(text::nat_text(id as nat))
}

/// A node as an object with its identifier as a text.
pub open spec fn strict_node(n: NodeV) -> Result<JsonV, Seq<char>> {
    match strict_props(n.properties, n.properties.len() as int) {
        Err(x) => Err(x),
        Ok(m) => Ok(
            JsonV::Object(
                seq![
                    ("_id"@, id_text(n.id)),
                    ("_labels"@, texts_json(n.labels)),
                    ("_properties"@, JsonV::Object(m)),
                ],
            ),
        ),
    }
}

/// A relationship as an object with identifiers as texts.
pub open spec fn strict_edge(e: EdgeV) -> Result<JsonV, Seq<char>> {
    match strict_props(e.properties, e.properties.len() as int) {
        Err(x) => Err(x),
        Ok(m) => Ok(
            JsonV::Object(
                seq![
                    ("_id"@, id_text(e.id)),
                    ("_type"@, JsonV::Text(e.label)),
                    ("_src"@, id_text(e.src)),
                    ("_dst"@, id_text(e.dst)),
                    ("_properties"@, JsonV::Object(m)),
                ],
            ),
        ),
    }
}

/// A value as JSON that says exactly what the value is: paths and numbers that
/// are not finite have no such form.
pub open spec fn strict_of(v: ValV) -> Result<JsonV, Seq<char>>
    decreases v,
{
    match v {
        ValV::Float(b) => strict_float(b),
        ValV::List(items) => match strict_items(items, items.len() as int) {
            Ok(js) => Ok(JsonV::List(js)),
            Err(x) => Err(x),
        },
        ValV::Dict(m) => match strict_entries(m, m.len() as int) {
            Ok(js) => Ok(JsonV::Object(js)),
            Err(x) => Err(x),
        },
        ValV::Node(n) => strict_node(n),
        ValV::Relationship(e) => strict_edge(e),
        ValV::Path(_) => Err("Path results are not yet supported in WASM bindings"@),
        _ => Ok(json_of(v)),
    }
}

/// The first `n` values of a list as strict JSON.
pub open spec fn strict_items(items: Seq<ValV>, n: int) -> Result<Seq<JsonV>, Seq<char>>
    decreases items, n,
{
    if n <= 0 || n > items.len() {
        Ok(seq![])
    } else {
        match strict_items(items, n - 1) {
            Err(x) => Err(x),
            Ok(before) => match strict_of(items[n - 1]) {
                Ok(j) => Ok(before.push(j)),
                Err(x) => Err(x),
            },
        }
    }
}

/// The first `n` entries of a map as strict JSON.
pub open spec fn strict_entries(m: RecV, n: int) -> Result<Seq<(Seq<char>, JsonV)>, Seq<char>>
    decreases m, n,
{
    if n <= 0 || n > m.len() {
        Ok(seq![])
    } else {
        match strict_entries(m, n - 1) {
            Err(x) => Err(x),
            Ok(before) => match strict_of(m[n - 1].1) {
                Ok(j) => Ok(before.push((m[n - 1].0, j))),
                Err(x) => Err(x),
            },
        }
    }
}

/// The members of a row from its first `n` columns as strict JSON, null where
/// there is no value.
pub open spec fn strict_members(cols: Seq<Seq<char>>, row: Seq<ValV>, n: int) -> Result<
    Seq<(Seq<char>, JsonV)>,
    Seq<char>,
>
    decreases n,
{
    if n <= 0 || n > cols.len() {
        Ok(seq![])
    } else {
        match strict_members(cols, row, n - 1) {
            Err(x) => Err(x),
            Ok(before) => if n > row.len() {
                Ok(assoc::bind(before, cols[n - 1], JsonV::Null))
            } else {
                match strict_of(row[n - 1]) {
                    Ok(j) => Ok(assoc::bind(before, cols[n - 1], j)),
                    Err(x) => Err(x),
                }
            },
        }
    }
}

/// The first `n` rows of a result as objects of strict JSON.
pub open spec fn strict_rows(t: ResultV, n: int) -> Result<Seq<JsonV>, Seq<char>>
    decreases n,
{
    if n <= 0 || n > t.rows.len() {
        Ok(seq![])
    } else {
        match strict_rows(t, n - 1) {
            Err(x) => Err(x),
            Ok(before) => match strict_members(t.columns, t.rows[n - 1], t.columns.len() as int) {
                Ok(m) => Ok(before.push(JsonV::Object(m))),
                Err(x) => Err(x),
            },
        }
    }
}

/// The view of a JSON value or a message.
pub open spec fn strict_outcome(r: Result<Json, String>) -> Result<JsonV, Seq<char>> {
    match r {
        Ok(j) => Ok(j@),
        Err(m) => Err(m@),
    }
}

/// The view of JSON values or a message.
pub open spec fn items_outcome(r: Result<Vec<Json>, String>) -> Result<Seq<JsonV>, Seq<char>> {
    match r {
        Ok(v) => Ok(items_view(v@)),
        Err(m) => Err(m@),
    }
}

/// The view of members or a message.
pub open spec fn members_outcome(r: Result<Vec<(String, Json)>, String>) -> Result<
    Seq<(Seq<char>, JsonV)>,
    Seq<char>,
> {
    match r {
        Ok(v) => Ok(members_view(v@)),
        Err(m) => Err(m@),
    }
}

fn write_strict_float(b: u64) -> (r: Result<Json, String>)
    ensures
        strict_outcome(r) == strict_float(b),
{
    if number::nan(b) {
        Err(join2("Non-finite float value: ", "NaN"))
    } else if number::infinite(b) {
        if b >= number::SIGN_BIT {
            Err(join2("Non-finite float value: ", "-inf"))
        } else {
            Err(join2("Non-finite float value: ", "inf"))
        }
    } else {
        Ok(Json::Float(b))
    }
}

proof fn lemma_strict_props_stop(props: PropsV, n: int)
    requires
        0 <= n <= props.len(),
        strict_props(props, n) is Err,
    ensures
        strict_props(props, props.len() as int) == strict_props(props, n),
    decreases props.len() - n,
{
    if n < props.len() {
        lemma_strict_props_stop(props, n + 1);
    }
}

fn write_strict_props(props: &PropertyMap) -> (r: Result<Vec<(String, Json)>, String>)
    ensures
        members_outcome(r) == strict_props(props@, props@.len() as int),
{
    let mut out = no_members();
    let mut i: usize = 0;
    while i < props.entries.len()
        invariant
            i <= props.entries.len(),
            strict_props(props@, i as int) == Ok::<Seq<(Seq<char>, JsonV)>, Seq<char>>(
                members_view(out@),
            ),
        decreases props.entries.len() - i,
    {
        let written = match &props.entries[i].1 {
            PropertyValue::Float(b) => write_strict_float(*b),
            other => Ok(property_value_to_json(other)),
        };
        proof {
            assert(strict_outcome(written) == strict_prop(props@[i as int].1));
        }
        match written {
            Ok(j) => {
                add_member(&mut out, props.entries[i].0.as_str(), j);
            },
            Err(m) => {
                proof {
                    lemma_strict_props_stop(props@, i as int + 1);
                }
                return Err(m);
            },
        }
        i += 1;
    }
    Ok(out)
}

fn write_id(id: u64) -> (r: Json)
    ensures
        r@ == id_text(id),
{
    Json::Text(u64_text(id))
}

fn write_strict_node(n: &Node) -> (r: Result<Json, String>)
    ensures
        strict_outcome(r) == strict_node(n@),
{
    let props = write_strict_props(&n.properties)?;
    let mut m = no_members();
    add_member(&mut m, "_id", write_id(n.id));
    add_member(&mut m, "_labels", write_texts(&n.labels));
    add_member(&mut m, "_properties", Json::Object(props));
    proof {
        assert(members_view(m@) =~= strict_node(n@)->Ok_0->Object_0);
    }
    Ok(Json::Object(m))
}

fn write_strict_edge(e: &Edge) -> (r: Result<Json, String>)
    ensures
        strict_outcome(r) == strict_edge(e@),
{
    let props = write_strict_props(&e.properties)?;
    let mut m = no_members();
    add_member(&mut m, "_id", write_id(e.id));
    add_member(&mut m, "_type", Json::Text(e.label.clone()));
    add_member(&mut m, "_src", write_id(e.src));
    add_member(&mut m, "_dst", write_id(e.dst));
    add_member(&mut m, "_properties", Json::Object(props));
    proof {
        assert(members_view(m@) =~= strict_edge(e@)->Ok_0->Object_0);
    }
    Ok(Json::Object(m))
}

/// A value as JSON that says exactly what the value is.
pub fn cypher_value_to_strict_json(v: &CypherValue) -> (r: Result<Json, String>)
    ensures
        strict_outcome(r) == strict_of(v@),
    decreases v,
{
    match v {
        CypherValue::Float(b) => write_strict_float(*b),
        CypherValue::List(items) => {
            let js = write_strict_items(items)?;
            Ok(Json::List(js))
        },
        CypherValue::MapValue(m) => {
            let js = write_strict_entries(&m.entries)?;
            Ok(Json::Object(js))
        },
        CypherValue::Node(n) => write_strict_node(n),
        CypherValue::Relationship(e) => write_strict_edge(e),
        CypherValue::Path(_) => Err(
            "Path results are not yet supported in WASM bindings".to_owned(),
        ),
        _ => Ok(cypher_value_to_json(v)),
    }
}

proof fn lemma_strict_items_stop(items: Seq<ValV>, n: int)
    requires
        0 <= n <= items.len(),
        strict_items(items, n) is Err,
    ensures
        strict_items(items, items.len() as int) == strict_items(items, n),
    decreases items.len() - n,
{
    if n < items.len() {
        lemma_strict_items_stop(items, n + 1);
    }
}

fn write_strict_items(items: &Vec<CypherValue>) -> (r: Result<Vec<Json>, String>)
    ensures
        items_outcome(r) == strict_items(value::vals_view(items@), items@.len() as int),
    decreases items,
{
    let ghost want = value::vals_view(items@);
    let mut out: Vec<Json> = Vec::new();
    let mut i: usize = 0;
    proof {
        assert(items_view(out@) =~= Seq::<JsonV>::empty());
    }
    while i < items.len()
        invariant
            i <= items.len(),
            want == value::vals_view(items@),
            strict_items(want, i as int) == Ok::<Seq<JsonV>, Seq<char>>(items_view(out@)),
        decreases items.len() - i,
    {
        proof {
            assert(want[i as int] == items@[i as int]@);
        }
        match cypher_value_to_strict_json(&items[i]) {
            Ok(j) => {
                proof {
                    assert(items_view(out@.push(j)) =~= items_view(out@).push(j@));
                }
                out.push(j);
            },
            Err(m) => {
                proof {
                    lemma_strict_items_stop(want, i as int + 1);
                }
                return Err(m);
            },
        }
        i += 1;
    }
    Ok(out)
}

proof fn lemma_strict_entries_stop(m: RecV, n: int)
    requires
        0 <= n <= m.len(),
        strict_entries(m, n) is Err,
    ensures
        strict_entries(m, m.len() as int) == strict_entries(m, n),
    decreases m.len() - n,
{
    if n < m.len() {
        lemma_strict_entries_stop(m, n + 1);
    }
}

fn write_strict_entries(m: &Vec<(String, CypherValue)>) -> (r: Result<Vec<(String, Json)>, String>)
    ensures
        members_outcome(r) == strict_entries(value::pairs_view(m@), m@.len() as int),
    decreases m,
{
    let ghost want = value::pairs_view(m@);
    let mut out = no_members();
    let mut i: usize = 0;
    while i < m.len()
        invariant
            i <= m.len(),
            want == value::pairs_view(m@),
            strict_entries(want, i as int) == Ok::<Seq<(Seq<char>, JsonV)>, Seq<char>>(
                members_view(out@),
            ),
        decreases m.len() - i,
    {
        proof {
            assert(want[i as int] == (m@[i as int].0@, m@[i as int].1@));
        }
        match cypher_value_to_strict_json(&m[i].1) {
            Ok(j) => {
                add_member(&mut out, m[i].0.as_str(), j);
            },
            Err(x) => {
                proof {
                    lemma_strict_entries_stop(want, i as int + 1);
                }
                return Err(x);
            },
        }
        i += 1;
    }
    Ok(out)
}

proof fn lemma_strict_members_stop(cols: Seq<Seq<char>>, row: Seq<ValV>, n: int)
    requires
        0 <= n <= cols.len(),
        strict_members(cols, row, n) is Err,
    ensures
        strict_members(cols, row, cols.len() as int) == strict_members(cols, row, n),
    decreases cols.len() - n,
{
    if n < cols.len() {
        lemma_strict_members_stop(cols, row, n + 1);
    }
}

fn write_strict_row(cols: &Vec<String>, row: &ResultRow) -> (r: Result<
    Vec<(String, Json)>,
    String,
>)
    ensures
        members_outcome(r) == strict_members(
            text::texts_view(cols@),
            value::vals_view(row.values@),
            cols@.len() as int,
        ),
{
    let ghost cv = text::texts_view(cols@);
    let ghost rv = value::vals_view(row.values@);
    let mut out = no_members();
    let mut i: usize = 0;
    while i < cols.len()
        invariant
            i <= cols.len(),
            cv == text::texts_view(cols@),
            rv == value::vals_view(row.values@),
            strict_members(cv, rv, i as int) == Ok::<Seq<(Seq<char>, JsonV)>, Seq<char>>(
                members_view(out@),
            ),
        decreases cols.len() - i,
    {
        if i < row.values.len() {
            proof {
                assert(rv[i as int] == row.values@[i as int]@);
            }
            match cypher_value_to_strict_json(&row.values[i]) {
                Ok(j) => {
                    put_member(&mut out, cols[i].as_str(), j);
                },
                Err(x) => {
                    proof {
                        lemma_strict_members_stop(cv, rv, i as int + 1);
                    }
                    return Err(x);
                },
            }
        } else {
            put_member(&mut out, cols[i].as_str(), Json::Null);
        }
        i += 1;
    }
    Ok(out)
}

proof fn lemma_strict_rows_stop(t: ResultV, n: int)
    requires
        0 <= n <= t.rows.len(),
        strict_rows(t, n) is Err,
    ensures
        strict_rows(t, t.rows.len() as int) == strict_rows(t, n),
    decreases t.rows.len() - n,
{
    if n < t.rows.len() {
        lemma_strict_rows_stop(t, n + 1);
    }
}

/// The rows of a result as objects of strict JSON.
pub fn rows_to_strict_json(t: &QueryResult) -> (r: Result<Vec<Json>, String>)
    ensures
        items_outcome(r) == strict_rows(t@, t@.rows.len() as int),
{
    let mut out: Vec<Json> = Vec::new();
    let mut i: usize = 0;
    proof {
        assert(items_view(out@) =~= Seq::<JsonV>::empty());
    }
    while i < t.rows.len()
        invariant
            i <= t.rows.len(),
            strict_rows(t@, i as int) == Ok::<Seq<JsonV>, Seq<char>>(items_view(out@)),
        decreases t.rows.len() - i,
    {
        match write_strict_row(&t.columns, &t.rows[i]) {
            Ok(m) => {
                let j = Json::Object(m);
                proof {
                    assert(items_view(out@.push(j)) =~= items_view(out@).push(j@));
                }
                out.push(j);
            },
            Err(x) => {
                proof {
                    lemma_strict_rows_stop(t@, i as int + 1);
                }
                return Err(x);
            },
        }
        i += 1;
    }
    Ok(out)
}

/// A value that has the form of JSON: one without nodes, relationships, paths,
/// dates and times, whose numbers are finite and whose maps have no key twice.
pub open spec fn plain(v: ValV) -> bool
    decreases v,
{
    match v {
        ValV::Null => true,
        ValV::Boolean(_) => true,
        ValV::Integer(_) => true,
        ValV::Float(b) => !number::is_nan(b) && !number::is_infinite(b),
        ValV::Str(_) => true,
        ValV::List(items) => forall|i: int| 0 <= i < items.len() ==> plain(#[trigger] items[i]),
        ValV::Dict(m) => assoc::distinct_keys(m) && forall|i: int|
            0 <= i < m.len() ==> plain((#[trigger] m[i]).1),
        _ => false,
    }
}

/// A value that has the form of JSON comes back from JSON as it was.
pub proof fn lemma_json_read_back(v: ValV)
    requires
        plain(v),
    ensures
        value_of(json_of(v)) == v,
    decreases v,
{
    match v {
        ValV::List(items) => {
            assert forall|i: int| 0 <= i < items.len() implies value_of(
                json_of(#[trigger] items[i]),
            ) == items[i] by {
                lemma_json_read_back(items[i]);
            }
            assert(values_of(jsons_of(items)) =~= items);
        },
        ValV::Dict(m) => {
            assert forall|i: int| 0 <= i < m.len() implies value_of(json_of((#[trigger] m[i]).1))
                == m[i].1 by {
                lemma_json_read_back(m[i].1);
            }
            lemma_entries_read_back(m, m.len() as int);
            assert(m.take(m.len() as int) =~= m);
        },
        _ => {},
    }
}

proof fn lemma_entries_read_back(m: RecV, n: int)
    requires
        0 <= n <= m.len(),
        assoc::distinct_keys(m),
        forall|i: int| 0 <= i < m.len() ==> value_of(json_of((#[trigger] m[i]).1)) == m[i].1,
    ensures
        entries_of(members_of(m), n) == m.take(n),
    decreases n,
{
    if n > 0 {
        lemma_entries_read_back(m, n - 1);
        let before = m.take(n - 1);
        assoc::lemma_position(before, m[n - 1].0, 0);
        if assoc::position(before, m[n - 1].0) is Some {
            let p = assoc::position(before, m[n - 1].0).unwrap();
            assert(before[p] == m[p]);
            assert(m[p].0 != m[n - 1].0);
        }
        assert(members_of(m)[n - 1] == (m[n - 1].0, json_of(m[n - 1].1)));
        assert(m.take(n) =~= before.push(m[n - 1]));
    } else {
        assert(m.take(0) =~= Seq::empty());
    }
}

} // verus!
