//! Texts that are the same for equal values, by which rows are grouped and
//! told apart.
use crate::arrange::{self, sort_texts};
use crate::functions::{self, bool_string, float_to_cypher_string};
use crate::error::{CypherError, ErrV};
use crate::number::{self, with_one_zero};
use crate::outside::{AnswersV, Outside};
use crate::text::{self, chars_of, i64_text, join2, join3, join_texts, list_has, u64_text};
use crate::value::{self, CypherValue, Edge, EdgeV, Node, NodeV, RecV, Record, ValV};
use vstd::prelude::*;

verus! {

/// A text behind its length, so that it is plain where it ends.
pub open spec fn sized(s: Seq<char>) -> Seq<char> {
    text::nat_text(s.len()) + ":"@ + s
}

/// The key of a value.
pub open spec fn stable_key(v: ValV) -> Seq<char>
    decreases v,
{
    match v {
        ValV::Null => "N"@,
        ValV::Boolean(b) => "B:"@ + functions::bool_text(b),
        ValV::Integer(i) => "I:"@ + text::int_text(i as int) + ";"@,
        ValV::Float(f) => "F:"@ + text::nat_text(number::one_zero(f) as nat) + ";"@,
        ValV::Str(s) => "S:"@ + sized(s),
        ValV::List(items) => "L:["@ + text::joined(stable_keys(items), ","@) + "]"@,
        ValV::Dict(m) => "M:{"@ + text::joined(
            arrange::arranged(stable_entries(m), arrange::text_after()),
            ","@,
        ) + "}"@,
        ValV::Node(n) => "n:"@ + text::nat_text(n.id as nat) + ";"@,
        ValV::Relationship(e) => "r:"@ + text::nat_text(e.id as nat) + ";"@,
        ValV::Path(p) => "P:["@ + text::joined(id_keys(node_ids(p.nodes)), ","@) + "]["@
            + text::joined(id_keys(edge_ids(p.relationships)), ","@) + "]"@,
        ValV::Date(d) => "D:"@ + text::int_text(d as int) + ";"@,
        ValV::Timestamp(s, n) => "T:"@ + text::int_text(s as int) + ";"@ + text::nat_text(n as nat)
            + ";"@,
    }
}

/// The keys of the values of a list.
pub open spec fn stable_keys(items: Seq<ValV>) -> Seq<Seq<char>>
    decreases items,
{
    Seq::new(
        items.len(),
        |i: int|
            if 0 <= i < items.len() {
                stable_key(items[i])
            } else {
                arbitrary()
            },
    )
}

/// The entries of a map, each as its key behind its length, and the key of its
/// value.
pub open spec fn stable_entries(m: RecV) -> Seq<Seq<char>>
    decreases m,
{
    Seq::new(
        m.len(),
        |i: int|
            if 0 <= i < m.len() {
                sized(m[i].0) + stable_key(m[i].1)
            } else {
                arbitrary()
            },
    )
}

/// The identifiers of nodes.
pub open spec fn node_ids(nodes: Seq<NodeV>) -> Seq<u64> {
    Seq::new(nodes.len(), |i: int| nodes[i].id)
}

/// The identifiers of relationships.
pub open spec fn edge_ids(edges: Seq<EdgeV>) -> Seq<u64> {
    Seq::new(edges.len(), |i: int| edges[i].id)
}

/// The keys of identifiers.
pub open spec fn id_keys(ids: Seq<u64>) -> Seq<Seq<char>> {
    Seq::new(ids.len(), |i: int| text::nat_text(ids[i] as nat) + ";"@)
}

/// The key of several values.
pub open spec fn row_key(vals: Seq<ValV>) -> Seq<char> {
    text::joined(stable_keys(vals), "\0"@)
}

/// The values of columns in a row.
pub open spec fn columns_of(rec: RecV, cols: Seq<Seq<char>>) -> Seq<ValV> {
    Seq::new(cols.len(), |i: int| value::value_or_null(rec, cols[i]))
}

fn size_text(s: &str) -> (r: String)
    ensures
        r@ == sized(s@),
{
    let n = chars_of(s).len();
    join3(u64_text(n as u64).as_str(), ":", s)
}

/// The key of a value: the same for equal values, and different for different
/// ones.
pub fn cypher_value_to_stable_key(val: &CypherValue) -> (r: String)
    ensures
        r@ == stable_key(val@),
    decreases val,
{
    match val {
        CypherValue::Null => "N".to_owned(),
        CypherValue::Boolean(b) => join2("B:", bool_string(*b).as_str()),
        CypherValue::Integer(i) => join3("I:", i64_text(*i).as_str(), ";"),
        CypherValue::Float(f) => join3("F:", u64_text(with_one_zero(*f)).as_str(), ";"),
        CypherValue::String(s) => join2("S:", size_text(s.as_str()).as_str()),
        CypherValue::List(items) => join3(
            "L:[",
            join_texts(&value_keys(items), ",").as_str(),
            "]",
        ),
        CypherValue::MapValue(m) => join3(
            "M:{",
            join_texts(&sort_texts(&entry_keys(&m.entries)), ",").as_str(),
            "}",
        ),
        CypherValue::Node(n) => join3("n:", u64_text(n.id).as_str(), ";"),
        CypherValue::Relationship(e) => join3("r:", u64_text(e.id).as_str(), ";"),
        CypherValue::Path(p) => {
            let nodes = join3("P:[", join_texts(&node_keys(&p.nodes), ",").as_str(), "][");
            join3(nodes.as_str(), join_texts(&edge_keys(&p.relationships), ",").as_str(), "]")
        },
        CypherValue::Date(d) => join3("D:", i64_text(*d as i64).as_str(), ";"),
        CypherValue::Timestamp(s, n) => join3(
            join3("T:", i64_text(*s).as_str(), ";").as_str(),
            u64_text(*n as u64).as_str(),
            ";",
        ),
    }
}

/// The keys of the values of a list.
pub fn value_keys(items: &Vec<CypherValue>) -> (r: Vec<String>)
    ensures
        text::texts_view(r@) == stable_keys(value::vals_view(items@)),
    decreases items,
{
    let mut r: Vec<String> = Vec::new();
    let mut i: usize = 0;
    while i < items.len()
        invariant
            i <= items.len(),
            r@.len() == i,
            forall|j: int|
                0 <= j < i ==> (#[trigger] r@[j])@ == stable_key(value::vals_view(items@)[j]),
        decreases items.len() - i,
    {
        proof {
            assert(value::vals_view(items@)[i as int] == items@[i as int]@);
        }
        let k = cypher_value_to_stable_key(&items[i]);
        r.push(k);
        i += 1;
    }
    proof {
        assert(text::texts_view(r@) =~= stable_keys(value::vals_view(items@)));
    }
    r
}

fn entry_keys(m: &Vec<(String, CypherValue)>) -> (r: Vec<String>)
    ensures
        text::texts_view(r@) == stable_entries(value::pairs_view(m@)),
    decreases m,
{
    let mut r: Vec<String> = Vec::new();
    let mut i: usize = 0;
    while i < m.len()
        invariant
            i <= m.len(),
            r@.len() == i,
            forall|j: int|
                0 <= j < i ==> (#[trigger] r@[j])@ == sized(value::pairs_view(m@)[j].0)
                    + stable_key(value::pairs_view(m@)[j].1),
        decreases m.len() - i,
    {
        proof {
            assert(value::pairs_view(m@)[i as int] == (m@[i as int].0@, m@[i as int].1@));
        }
        let k = size_text(m[i].0.as_str());
        let v = cypher_value_to_stable_key(&m[i].1);
        r.push(join2(k.as_str(), v.as_str()));
        i += 1;
    }
    proof {
        assert(text::texts_view(r@) =~= stable_entries(value::pairs_view(m@)));
    }
    r
}

fn node_keys(items: &Vec<Node>) -> (r: Vec<String>)
    ensures
        text::texts_view(r@) == id_keys(node_ids(value::nodes_view(items@))),
{
    let mut r: Vec<String> = Vec::new();
    let mut i: usize = 0;
    while i < items.len()
        invariant
            i <= items.len(),
            r@.len() == i,
            forall|j: int|
                0 <= j < i ==> (#[trigger] r@[j])@ == text::nat_text(items@[j].id as nat) + ";"@,
        decreases items.len() - i,
    {
        r.push(join2(u64_text(items[i].id).as_str(), ";"));
        i += 1;
    }
    proof {
        assert(text::texts_view(r@) =~= id_keys(node_ids(value::nodes_view(items@))));
    }
    r
}

fn edge_keys(items: &Vec<Edge>) -> (r: Vec<String>)
    ensures
        text::texts_view(r@) == id_keys(edge_ids(value::edges_view(items@))),
{
    let mut r: Vec<String> = Vec::new();
    let mut i: usize = 0;
    while i < items.len()
        invariant
            i <= items.len(),
            r@.len() == i,
            forall|j: int|
                0 <= j < i ==> (#[trigger] r@[j])@ == text::nat_text(items@[j].id as nat) + ";"@,
        decreases items.len() - i,
    {
        r.push(join2(u64_text(items[i].id).as_str(), ";"));
        i += 1;
    }
    proof {
        assert(text::texts_view(r@) =~= id_keys(edge_ids(value::edges_view(items@))));
    }
    r
}

/// The key of several values.
pub fn values_key(vals: &Vec<CypherValue>) -> (r: String)
    ensures
        r@ == row_key(value::vals_view(vals@)),
{
    join_texts(&value_keys(vals), "\0")
}

/// The values of columns in a row.
pub fn column_values(rec: &Record, cols: &Vec<String>) -> (r: Vec<CypherValue>)
    ensures
        value::vals_view(r@) == columns_of(rec@, text::texts_view(cols@)),
{
    let mut r: Vec<CypherValue> = Vec::new();
    let mut i: usize = 0;
    while i < cols.len()
        invariant
            i <= cols.len(),
            r@.len() == i,
            forall|j: int|
                0 <= j < i ==> (#[trigger] r@[j])@ == value::value_or_null(rec@, cols@[j]@),
        decreases cols.len() - i,
    {
        r.push(rec.get_or_null(cols[i].as_str()));
        i += 1;
    }
    proof {
        assert(value::vals_view(r@) =~= columns_of(rec@, text::texts_view(cols@)));
    }
    r
}

// ---------------------------------------------------------------------------
// Rows without repetitions
// ---------------------------------------------------------------------------

/// The rows from the `i`-th on whose key was not seen before, behind those
/// that are kept already.
pub open spec fn distinct_rows(
    rows: Seq<RecV>,
    cols: Seq<Seq<char>>,
    i: int,
    seen: Seq<Seq<char>>,
    acc: Seq<RecV>,
) -> Seq<RecV>
    decreases rows.len() - i,
{
    if i < 0 || i >= rows.len() {
        acc
    } else {
        let k = row_key(columns_of(rows[i], cols));
        if text::has_text(seen, k) {
            distinct_rows(rows, cols, i + 1, seen, acc)
        } else {
            distinct_rows(rows, cols, i + 1, seen.push(k), acc.push(rows[i]))
        }
    }
}

/// The rows with different values in some of the columns, the first of each
/// kind.
pub fn drop_repeated(rows: Vec<Record>, cols: &Vec<String>) -> (r: Vec<Record>)
    ensures
        value::recs_view(r@) == distinct_rows(
            value::recs_view(rows@),
            text::texts_view(cols@),
            0,
            seq![],
            seq![],
        ),
{
    let mut r: Vec<Record> = Vec::new();
    let mut seen: Vec<String> = Vec::new();
    let mut i: usize = 0;
    proof {
        assert(value::recs_view(r@) =~= seq![]);
        assert(text::texts_view(seen@) =~= seq![]);
    }
    while i < rows.len()
        invariant
            i <= rows.len(),
            distinct_rows(
                value::recs_view(rows@),
                text::texts_view(cols@),
                0,
                seq![],
                seq![],
            ) == distinct_rows(
                value::recs_view(rows@),
                text::texts_view(cols@),
                i as int,
                text::texts_view(seen@),
                value::recs_view(r@),
            ),
        decreases rows.len() - i,
    {
        let k = values_key(&column_values(&rows[i], cols));
        if !list_has(&seen, k.as_str()) {
            let ghost s0 = text::texts_view(seen@);
            let ghost r0 = value::recs_view(r@);
            let rec = rows[i].clone();
            proof {
                assert(text::texts_view(seen@.push(k)) =~= s0.push(k@));
                assert(value::recs_view(r@.push(rec)) =~= r0.push(rec@));
            }
            seen.push(k);
            r.push(rec);
        }
        i += 1;
    }
    r
}

// ---------------------------------------------------------------------------
// Values as short texts
// ---------------------------------------------------------------------------

/// A value as a short text.
pub open spec fn short_text(ans: AnswersV, v: ValV) -> Result<Seq<char>, ErrV> {
    match v {
        ValV::Null => Ok("null"@),
        ValV::Boolean(b) => Ok(functions::bool_text(b)),
        ValV::Integer(i) => Ok(text::int_text(i as int)),
        ValV::Float(f) => functions::float_text(ans, f),
        ValV::Str(s) => Ok(s),
        ValV::List(_) => Ok("[...]"@),
        ValV::Dict(_) => Ok("{...}"@),
        ValV::Node(n) => Ok("Node("@ + text::nat_text(n.id as nat) + ")"@),
        ValV::Relationship(e) => Ok("Relationship("@ + text::nat_text(e.id as nat) + ")"@),
        ValV::Path(_) => Ok("Path(...)"@),
        ValV::Date(d) => Ok("Date("@ + text::int_text(d as int) + ")"@),
        ValV::Timestamp(s, n) => Ok("Timestamp("@ + text::int_text(s as int) + ")"@),
    }
}

pub fn cypher_value_to_string<O: Outside>(val: &CypherValue, outside: &O) -> (r: Result<
    String,
    CypherError,
>)
    ensures
        match r {
            Ok(s) => short_text(outside.answers(), val@) == Ok::<Seq<char>, ErrV>(s@),
            Err(e) => short_text(outside.answers(), val@) == Err::<Seq<char>, ErrV>(e@),
        },
{
    match val {
        CypherValue::Null => Ok("null".to_owned()),
        CypherValue::Boolean(b) => Ok(bool_string(*b)),
        CypherValue::Integer(i) => Ok(i64_text(*i)),
        CypherValue::Float(f) => float_to_cypher_string(*f, outside),
        CypherValue::String(s) => Ok(s.clone()),
        CypherValue::List(_) => Ok("[...]".to_owned()),
        CypherValue::MapValue(_) => Ok("{...}".to_owned()),
        CypherValue::Node(n) => Ok(join3("Node(", u64_text(n.id).as_str(), ")")),
        CypherValue::Relationship(e) => Ok(join3("Relationship(", u64_text(e.id).as_str(), ")")),
        CypherValue::Path(_) => Ok("Path(...)".to_owned()),
        CypherValue::Date(d) => Ok(join3("Date(", i64_text(*d as i64).as_str(), ")")),
        CypherValue::Timestamp(s, n) => Ok(join3("Timestamp(", i64_text(*s).as_str(), ")")),
    }
}

} // verus!
