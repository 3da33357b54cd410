//! Values and results as texts for a reader: tables, comma-separated values,
//! JSON and lines.
use crate::arrange::{self, sort_texts};
use crate::error::{CypherError, ErrV};
use crate::executor::{QueryResult, ResultRow, ResultV};
use crate::executor;
use crate::functions::{self, ask_numeral, ask_tenths, bool_string};
use crate::literals;
use crate::number;
use crate::outside::{AnswersV, Outside};
use crate::text::{
    self, chars_of, i64_text, join2, join3, join_texts, lowercase, replace_text, same_text,
    text_contains, u64_text,
};
use crate::value::{
    self, CypherValue, EdgeV, Edge, Node, NodeV, PropV, PropertyMap, PropertyValue, PropsV, RecV,
    ValV,
};
use vstd::prelude::*;
use vstd::utf8::*;

verus! {

// ---------------------------------------------------------------------------
// Texts that may be missing
// ---------------------------------------------------------------------------

/// A text or an error.
pub type TextV = Result<Seq<char>, ErrV>;

/// All texts of a list, or the first error among them.
pub open spec fn collected(s: Seq<TextV>) -> Result<Seq<Seq<char>>, ErrV>
    decreases s.len(),
{
    if s.len() == 0 {
        Ok(seq![])
    } else {
        match collected(s.drop_last()) {
            Err(x) => Err(x),
            Ok(before) => match s.last() {
                Ok(t) => Ok(before.push(t)),
                Err(x) => Err(x),
            },
        }
    }
}

/// The view of texts or errors.
pub open spec fn outcomes(s: Seq<Result<String, CypherError>>) -> Seq<TextV> {
    Seq::new(s.len(), |i: int| literals::text_outcome(s[i]))
}

/// The view of texts, or of an error.
pub open spec fn texts_outcome(r: Result<Vec<String>, CypherError>) -> Result<
    Seq<Seq<char>>,
    ErrV,
> {
    match r {
        Ok(v) => Ok(text::texts_view(v@)),
        Err(e) => Err(e@),
    }
}

proof fn lemma_collected_stops(s: Seq<TextV>, n: int)
    requires
        0 <= n <= s.len(),
        collected(s.take(n)) is Err,
    ensures
        collected(s) == collected(s.take(n)),
    decreases s.len() - n,
{
    if n < s.len() {
        assert(s.take(n + 1).drop_last() =~= s.take(n));
        lemma_collected_stops(s, n + 1);
    } else {
        assert(s.take(n) =~= s);
    }
}

fn collect(v: Vec<Result<String, CypherError>>) -> (r: Result<Vec<String>, CypherError>)
    ensures
        texts_outcome(r) == collected(outcomes(v@)),
{
    let ghost want = outcomes(v@);
    let mut out: Vec<String> = Vec::new();
    let mut i: usize = 0;
    proof {
        assert(text::texts_view(out@) =~= Seq::<Seq<char>>::empty());
    }
    while i < v.len()
        invariant
            i <= v.len(),
            want == outcomes(v@),
            collected(want.take(i as int)) == Ok::<Seq<Seq<char>>, ErrV>(text::texts_view(out@)),
        decreases v.len() - i,
    {
        proof {
            assert(want.take(i as int + 1).drop_last() =~= want.take(i as int));
            assert(want.take(i as int + 1).last() == literals::text_outcome(v@[i as int]));
        }
        match &v[i] {
            Ok(t) => {
                let c = t.clone();
                proof {
                    assert(text::texts_view(out@.push(c)) =~= text::texts_view(out@).push(c@));
                }
                out.push(c);
            },
            Err(e) => {
                proof {
                    lemma_collected_stops(want, i as int + 1);
                }
                return Err(e.clone());
            },
        }
        i += 1;
    }
    proof {
        assert(want.take(want.len() as int) =~= want);
    }
    Ok(out)
}

// ---------------------------------------------------------------------------
// Dates and times
// ---------------------------------------------------------------------------

/// The calendar date with a number of days, as `chrono` writes it, if there is
/// one with that number.
pub uninterp spec fn calendar_date(days: i32) -> Option<Seq<char>>;

/// Writes a date with `chrono::NaiveDate::from_num_days_from_ce_opt` and the
/// `Display` of the date. The contract names the result, a function of the
/// number of days alone; it says nothing of the form of the text.
#[verifier::external_body]
fn write_date(days: i32) -> (r: Option<String>)
    ensures
        (match r {
            Some(t) => Some(t@),
            None => None,
        }) == calendar_date(days),
{
    match chrono::NaiveDate::from_num_days_from_ce_opt(days) {
        Some(d) => Some(d.to_string()),
        None => None,
    }
}

/// The time at a number of seconds and nanoseconds from the Unix epoch, as
/// `chrono` writes it by RFC 3339, if there is such a time.
pub uninterp spec fn universal_time(seconds: i64, nanos: u32) -> Option<Seq<char>>;

/// Writes a time with `chrono::DateTime::from_timestamp` and
/// `chrono::DateTime::to_rfc3339`. The contract names the result, a function
/// of the two numbers alone; it says nothing of the form of the text.
#[verifier::external_body]
fn write_time(seconds: i64, nanos: u32) -> (r: Option<String>)
    ensures
        (match r {
            Some(t) => Some(t@),
            None => None,
        }) == universal_time(seconds, nanos),
{
    match chrono::DateTime::from_timestamp(seconds, nanos) {
        Some(t) => Some(t.to_rfc3339()),
        None => None,
    }
}

/// The text of a date, given what the calendar says of it. A number that is
/// that of no date stays a number.
pub open spec fn date_shown(days: i32, written: Option<Seq<char>>) -> Seq<char> {
    match written {
        Some(t) => t,
        None => text::int_text(days as int),
    }
}

/// The text of a date, given what the calendar says of it.
pub fn show_date(days: i32, written: Option<String>) -> (r: String)
    ensures
        r@ == date_shown(
            days,
            match written {
                Some(t) => Some(t@),
                None => None,
            },
        ),
{
    match written {
        Some(t) => t,
        None => i64_text(days as i64),
    }
}

/// The text of a time, given how it is written. Numbers that are those of no
/// time stay numbers.
pub open spec fn time_shown(seconds: i64, nanos: u32, written: Option<Seq<char>>) -> Seq<char> {
    match written {
        Some(t) => t,
        None => text::int_text(seconds as int) + "."@ + text::nat_text(nanos as nat),
    }
}

/// The text of a time, given how it is written.
pub fn show_time(seconds: i64, nanos: u32, written: Option<String>) -> (r: String)
    ensures
        r@ == time_shown(
            seconds,
            nanos,
            match written {
                Some(t) => Some(t@),
                None => None,
            },
        ),
{
    match written {
        Some(t) => t,
        None => join3(i64_text(seconds).as_str(), ".", u64_text(nanos as u64).as_str()),
    }
}

/// The text of a date.
pub fn date_to_display(days: i32) -> (r: String)
    ensures
        r@ == date_shown(days, calendar_date(days)),
{
    show_date(days, write_date(days))
}

/// The text of a time.
pub fn time_to_display(seconds: i64, nanos: u32) -> (r: String)
    ensures
        r@ == time_shown(seconds, nanos, universal_time(seconds, nanos)),
{
    show_time(seconds, nanos, write_time(seconds, nanos))
}

// ---------------------------------------------------------------------------
// Values
// ---------------------------------------------------------------------------

/// The bits of ten to the fifteenth power, from which on whole numbers are
/// shown without a place behind the point.
pub const LARGE_FLOAT_BITS: u64 = 0x430c6bf526340000;

/// A property for a reader.
pub open spec fn prop_shown(ans: AnswersV, v: PropV) -> TextV {
    match v {
        PropV::Str(s) => Ok(s),
        PropV::Int(i) => Ok(text::int_text(i as int)),
        PropV::Float(b) => functions::numeral_for(ans, b),
        PropV::Bool(b) => Ok(functions::bool_text(b)),
    }
}

/// A key and a text with a colon between them.
pub open spec fn labelled(k: Seq<char>, v: TextV) -> TextV {
    match v {
        Ok(t) => Ok(k + ": "@ + t),
        Err(x) => Err(x),
    }
}

/// Properties for a reader, each with its key.
pub open spec fn props_shown(ans: AnswersV, props: PropsV) -> Seq<TextV> {
    Seq::new(props.len(), |i: int| labelled(props[i].0, prop_shown(ans, props[i].1)))
}

/// Texts in the order of texts, with commas between them.
pub open spec fn sorted_list(s: Seq<TextV>) -> TextV {
    match collected(s) {
        Ok(ts) => Ok(text::joined(arrange::arranged(ts, arrange::text_after()), ", "@)),
        Err(x) => Err(x),
    }
}

/// A text between two others.
pub open spec fn enclosed(open: Seq<char>, body: TextV, close: Seq<char>) -> TextV {
    match body {
        Ok(t) => Ok(open + t + close),
        Err(x) => Err(x),
    }
}

/// A node for a reader.
pub open spec fn node_shown(ans: AnswersV, n: NodeV) -> TextV {
    enclosed(
        "("@ + text::nat_text(n.id as nat) + (if n.labels.len() == 0 {
            seq![]
        } else {
            ":"@ + text::joined(n.labels, ":"@)
        }) + "  {"@,
        sorted_list(props_shown(ans, n.properties)),
        "})"@,
    )
}

/// A relationship for a reader.
pub open spec fn edge_shown(ans: AnswersV, e: EdgeV) -> TextV {
    enclosed(
        "["@ + text::nat_text(e.src as nat) + "->"@ + text::nat_text(e.dst as nat) + ":"@ + e.label
            + "  {"@,
        sorted_list(props_shown(ans, e.properties)),
        "}]"@,
    )
}

/// A floating-point number for a reader. A whole number that is not large
/// keeps a place behind the point.
pub open spec fn float_shown(ans: AnswersV, b: u64) -> TextV {
    if number::is_whole(b) && number::magnitude(b) < LARGE_FLOAT_BITS {
        functions::tenths_for(ans, b)
    } else {
        functions::numeral_for(ans, b)
    }
}

/// A value for a reader.
pub open spec fn shown(ans: AnswersV, v: ValV) -> TextV
    decreases v,
{
    match v {
        ValV::Null => Ok("NULL"@),
        ValV::Boolean(b) => Ok(functions::bool_text(b)),
        ValV::Integer(i) => Ok(text::int_text(i as int)),
        ValV::Float(b) => float_shown(ans, b),
        ValV::Str(s) => Ok(s),
        ValV::List(items) => match collected(all_shown(ans, items)) {
            Ok(ts) => Ok("["@ + text::joined(ts, ", "@) + "]"@),
            Err(x) => Err(x),
        },
        ValV::Dict(m) => enclosed("{"@, sorted_list(entries_shown(ans, m)), "}"@),
        ValV::Node(n) => node_shown(ans, n),
        ValV::Relationship(e) => edge_shown(ans, e),
        ValV::Path(p) => Ok(
            "<path: "@ + text::nat_text(p.nodes.len()) + " nodes, "@ + text::nat_text(
                p.relationships.len(),
            ) + " rels>"@,
        ),
        ValV::Date(d) => Ok(date_shown(d, calendar_date(d))),
        ValV::Timestamp(s, n) => Ok(time_shown(s, n, universal_time(s, n))),
    }
}

/// Values for a reader.
pub open spec fn all_shown(ans: AnswersV, items: Seq<ValV>) -> Seq<TextV>
    decreases items,
{
    Seq::new(
        items.len(),
        |i: int|
            if 0 <= i < items.len() {
                shown(ans, items[i])
            } else {
                arbitrary()
            },
    )
}

/// The entries of a map for a reader.
pub open spec fn entries_shown(ans: AnswersV, m: RecV) -> Seq<TextV>
    decreases m,
{
    Seq::new(
        m.len(),
        |i: int|
            if 0 <= i < m.len() {
                labelled(m[i].0, shown(ans, m[i].1))
            } else {
                arbitrary()
            },
    )
}

/// A text between double quotes, with a backslash before every backslash and
/// double quote.
pub open spec fn json_string(s: Seq<char>) -> Seq<char> {
    "\""@ + text::replaced(text::replaced(s, "\\"@, "\\\\"@), "\""@, "\\\""@) + "\""@
}

/// A text as a JSON string, unless it is missing.
pub open spec fn json_text(t: TextV) -> TextV {
    match t {
        Ok(s) => Ok(json_string(s)),
        Err(x) => Err(x),
    }
}

/// A value as JSON. What JSON has no form for is a string.
pub open spec fn json_shown(ans: AnswersV, v: ValV) -> TextV
    decreases v,
{
    match v {
        ValV::Null => Ok("null"@),
        ValV::Boolean(b) => Ok(functions::bool_text(b)),
        ValV::Integer(i) => Ok(text::int_text(i as int)),
        ValV::Float(b) => functions::numeral_for(ans, b),
        ValV::Str(s) => Ok(json_string(s)),
        ValV::List(items) => match collected(all_json_shown(ans, items)) {
            Ok(ts) => Ok("["@ + text::joined(ts, ", "@) + "]"@),
            Err(x) => Err(x),
        },
        ValV::Dict(m) => enclosed("{"@, sorted_list(json_entries_shown(ans, m)), "}"@),
        _ => json_text(shown(ans, v)),
    }
}

/// Values as JSON.
pub open spec fn all_json_shown(ans: AnswersV, items: Seq<ValV>) -> Seq<TextV>
    decreases items,
{
    Seq::new(
        items.len(),
        |i: int|
            if 0 <= i < items.len() {
                json_shown(ans, items[i])
            } else {
                arbitrary()
            },
    )
}

/// The entries of a map as JSON.
pub open spec fn json_entries_shown(ans: AnswersV, m: RecV) -> Seq<TextV>
    decreases m,
{
    Seq::new(
        m.len(),
        |i: int|
            if 0 <= i < m.len() {
                labelled("\""@ + m[i].0 + "\""@, json_shown(ans, m[i].1))
            } else {
                arbitrary()
            },
    )
}

/// A property for a reader.
pub fn prop_to_display<O: Outside>(v: &PropertyValue, outside: &O) -> (r: Result<
    String,
    CypherError,
>)
    ensures
        literals::text_outcome(r) == prop_shown(outside.answers(), v@),
{
    match v {
        PropertyValue::String(s) => Ok(s.clone()),
        PropertyValue::Int(i) => Ok(i64_text(*i)),
        PropertyValue::Float(b) => ask_numeral(outside, *b),
        PropertyValue::Bool(b) => Ok(bool_string(*b)),
    }
}

fn label_text(k: &str, v: Result<String, CypherError>) -> (r: Result<String, CypherError>)
    ensures
        literals::text_outcome(r) == labelled(k@, literals::text_outcome(v)),
{
    match v {
        Ok(t) => Ok(join3(k, ": ", t.as_str())),
        Err(e) => Err(e),
    }
}

fn props_to_display<O: Outside>(props: &PropertyMap, outside: &O) -> (r: Vec<
    Result<String, CypherError>,
>)
    ensures
        outcomes(r@) == props_shown(outside.answers(), props@),
{
    let mut out: Vec<Result<String, CypherError>> = Vec::new();
    let mut i: usize = 0;
    while i < props.entries.len()
        invariant
            i <= props.entries.len(),
            out@.len() == i,
            forall|j: int|
                0 <= j < i ==> literals::text_outcome(#[trigger] out@[j]) == labelled(
                    props@[j].0,
                    prop_shown(outside.answers(), props@[j].1),
                ),
        decreases props.entries.len() - i,
    {
        let v = prop_to_display(&props.entries[i].1, outside);
        let t = label_text(props.entries[i].0.as_str(), v);
        out.push(t);
        i += 1;
    }
    proof {
        assert(outcomes(out@) =~= props_shown(outside.answers(), props@));
    }
    out
}

fn sort_and_join(v: Vec<Result<String, CypherError>>) -> (r: Result<String, CypherError>)
    ensures
        literals::text_outcome(r) == sorted_list(outcomes(v@)),
{
    let ts = collect(v)?;
    Ok(join_texts(&sort_texts(&ts), ", "))
}

fn enclose(open: &str, body: Result<String, CypherError>, close: &str) -> (r: Result<
    String,
    CypherError,
>)
    ensures
        literals::text_outcome(r) == enclosed(open@, literals::text_outcome(body), close@),
{
    match body {
        Ok(t) => Ok(join3(open, t.as_str(), close)),
        Err(e) => Err(e),
    }
}

fn node_to_display<O: Outside>(n: &Node, outside: &O) -> (r: Result<String, CypherError>)
    ensures
        literals::text_outcome(r) == node_shown(outside.answers(), n@),
{
    let labels = if n.labels.len() == 0 {
        String::new()
    } else {
        join2(":", join_texts(&n.labels, ":").as_str())
    };
    proof {
        if n.labels.len() == 0 {
            assert(labels@ =~= Seq::<char>::empty());
        }
    }
    let id = join2("(", u64_text(n.id).as_str());
    let head = join3(id.as_str(), labels.as_str(), "  {");
    let props = sort_and_join(props_to_display(&n.properties, outside));
    enclose(head.as_str(), props, "})")
}

fn edge_to_display<O: Outside>(e: &Edge, outside: &O) -> (r: Result<String, CypherError>)
    ensures
        literals::text_outcome(r) == edge_shown(outside.answers(), e@),
{
    let ends = join3(
        join2("[", u64_text(e.src).as_str()).as_str(),
        "->",
        u64_text(e.dst).as_str(),
    );
    let head = join2(join3(ends.as_str(), ":", e.label.as_str()).as_str(), "  {");
    let props = sort_and_join(props_to_display(&e.properties, outside));
    enclose(head.as_str(), props, "}]")
}

fn float_to_display<O: Outside>(b: u64, outside: &O) -> (r: Result<String, CypherError>)
    ensures
        literals::text_outcome(r) == float_shown(outside.answers(), b),
{
    if number::whole(b) && number::without_sign(b) < LARGE_FLOAT_BITS {
        ask_tenths(outside, b)
    } else {
        ask_numeral(outside, b)
    }
}

/// A value for a reader.
pub fn cypher_to_display<O: Outside>(value: &CypherValue, outside: &O) -> (r: Result<
    String,
    CypherError,
>)
    ensures
        literals::text_outcome(r) == shown(outside.answers(), value@),
    decreases value,
{
    match value {
        CypherValue::Null => Ok("NULL".to_owned()),
        CypherValue::Boolean(b) => Ok(bool_string(*b)),
        CypherValue::Integer(i) => Ok(i64_text(*i)),
        CypherValue::Float(b) => float_to_display(*b, outside),
        CypherValue::String(s) => Ok(s.clone()),
        CypherValue::List(items) => {
            let ts = collect(values_to_display(items, outside))?;
            Ok(join3("[", join_texts(&ts, ", ").as_str(), "]"))
        },
        CypherValue::MapValue(m) => {
            let body = sort_and_join(entries_to_display(&m.entries, outside));
            enclose("{", body, "}")
        },
        CypherValue::Node(n) => node_to_display(n, outside),
        CypherValue::Relationship(e) => edge_to_display(e, outside),
        CypherValue::Path(p) => {
            let nodes = join3("<path: ", u64_text(p.nodes.len() as u64).as_str(), " nodes, ");
            Ok(join3(nodes.as_str(), u64_text(p.relationships.len() as u64).as_str(), " rels>"))
        },
        CypherValue::Date(d) => Ok(date_to_display(*d)),
        CypherValue::Timestamp(s, n) => Ok(time_to_display(*s, *n)),
    }
}

/// Values for a reader.
pub fn values_to_display<O: Outside>(items: &Vec<CypherValue>, outside: &O) -> (r: Vec<
    Result<String, CypherError>,
>)
    ensures
        outcomes(r@) == all_shown(outside.answers(), value::vals_view(items@)),
    decreases items,
{
    let mut out: Vec<Result<String, CypherError>> = Vec::new();
    let mut i: usize = 0;
    while i < items.len()
        invariant
            i <= items.len(),
            out@.len() == i,
            forall|j: int|
                0 <= j < i ==> literals::text_outcome(#[trigger] out@[j]) == shown(
                    outside.answers(),
                    value::vals_view(items@)[j],
                ),
        decreases items.len() - i,
    {
        proof {
            assert(value::vals_view(items@)[i as int] == items@[i as int]@);
        }
        let t = cypher_to_display(&items[i], outside);
        out.push(t);
        i += 1;
    }
    proof {
        assert(outcomes(out@) =~= all_shown(outside.answers(), value::vals_view(items@)));
    }
    out
}

fn entries_to_display<O: Outside>(m: &Vec<(String, CypherValue)>, outside: &O) -> (r: Vec<
    Result<String, CypherError>,
>)
    ensures
        outcomes(r@) == entries_shown(outside.answers(), value::pairs_view(m@)),
    decreases m,
{
    let mut out: Vec<Result<String, CypherError>> = Vec::new();
    let mut i: usize = 0;
    while i < m.len()
        invariant
            i <= m.len(),
            out@.len() == i,
            forall|j: int|
                0 <= j < i ==> literals::text_outcome(#[trigger] out@[j]) == labelled(
                    value::pairs_view(m@)[j].0,
                    shown(outside.answers(), value::pairs_view(m@)[j].1),
                ),
        decreases m.len() - i,
    {
        proof {
            assert(value::pairs_view(m@)[i as int] == (m@[i as int].0@, m@[i as int].1@));
        }
        let v = cypher_to_display(&m[i].1, outside);
        let t = label_text(m[i].0.as_str(), v);
        out.push(t);
        i += 1;
    }
    proof {
        assert(outcomes(out@) =~= entries_shown(outside.answers(), value::pairs_view(m@)));
    }
    out
}

fn quote_json(s: &str) -> (r: String)
    ensures
        r@ == json_string(s@),
{
    let body = replace_text(replace_text(s, "\\", "\\\\").as_str(), "\"", "\\\"");
    join3("\"", body.as_str(), "\"")
}

/// A value as JSON.
pub fn cypher_to_json<O: Outside>(value: &CypherValue, outside: &O) -> (r: Result<
    String,
    CypherError,
>)
    ensures
        literals::text_outcome(r) == json_shown(outside.answers(), value@),
    decreases value,
{
    match value {
        CypherValue::Null => Ok("null".to_owned()),
        CypherValue::Boolean(b) => Ok(bool_string(*b)),
        CypherValue::Integer(i) => Ok(i64_text(*i)),
        CypherValue::Float(b) => ask_numeral(outside, *b),
        CypherValue::String(s) => Ok(quote_json(s.as_str())),
        CypherValue::List(items) => {
            let ts = collect(values_to_json(items, outside))?;
            Ok(join3("[", join_texts(&ts, ", ").as_str(), "]"))
        },
        CypherValue::MapValue(m) => {
            let body = sort_and_join(entries_to_json(&m.entries, outside));
            enclose("{", body, "}")
        },
        _ => {
            let t = cypher_to_display(value, outside)?;
            Ok(quote_json(t.as_str()))
        },
    }
}

fn values_to_json<O: Outside>(items: &Vec<CypherValue>, outside: &O) -> (r: Vec<
    Result<String, CypherError>,
>)
    ensures
        outcomes(r@) == all_json_shown(outside.answers(), value::vals_view(items@)),
    decreases items,
{
    let mut out: Vec<Result<String, CypherError>> = Vec::new();
    let mut i: usize = 0;
    while i < items.len()
        invariant
            i <= items.len(),
            out@.len() == i,
            forall|j: int|
                0 <= j < i ==> literals::text_outcome(#[trigger] out@[j]) == json_shown(
                    outside.answers(),
                    value::vals_view(items@)[j],
                ),
        decreases items.len() - i,
    {
        proof {
            assert(value::vals_view(items@)[i as int] == items@[i as int]@);
        }
        let t = cypher_to_json(&items[i], outside);
        out.push(t);
        i += 1;
    }
    proof {
        assert(outcomes(out@) =~= all_json_shown(outside.answers(), value::vals_view(items@)));
    }
    out
}

fn entries_to_json<O: Outside>(m: &Vec<(String, CypherValue)>, outside: &O) -> (r: Vec<
    Result<String, CypherError>,
>)
    ensures
        outcomes(r@) == json_entries_shown(outside.answers(), value::pairs_view(m@)),
    decreases m,
{
    let mut out: Vec<Result<String, CypherError>> = Vec::new();
    let mut i: usize = 0;
    while i < m.len()
        invariant
            i <= m.len(),
            out@.len() == i,
            forall|j: int|
                0 <= j < i ==> literals::text_outcome(#[trigger] out@[j]) == labelled(
                    "\""@ + value::pairs_view(m@)[j].0 + "\""@,
                    json_shown(outside.answers(), value::pairs_view(m@)[j].1),
                ),
        decreases m.len() - i,
    {
        proof {
            assert(value::pairs_view(m@)[i as int] == (m@[i as int].0@, m@[i as int].1@));
        }
        let v = cypher_to_json(&m[i].1, outside);
        let k = join3("\"", m[i].0.as_str(), "\"");
        let t = label_text(k.as_str(), v);
        out.push(t);
        i += 1;
    }
    proof {
        assert(outcomes(out@) =~= json_entries_shown(outside.answers(), value::pairs_view(m@)));
    }
    out
}

// ---------------------------------------------------------------------------
// Results
// ---------------------------------------------------------------------------

/// How results are shown.
#[derive(Debug, Clone, Copy, PartialEq, Eq, Structural)]
pub enum OutputMode {
    Table,
    Csv,
    Json,
    Line,
}

/// The mode that a name in any case stands for.
pub open spec fn mode_named(s: Seq<char>) -> Option<OutputMode> {
    let name = text::lower_text(s);
    if name == "table"@ {
        Some(OutputMode::Table)
    } else if name == "csv"@ {
        Some(OutputMode::Csv)
    } else if name == "json"@ {
        Some(OutputMode::Json)
    } else if name == "line"@ {
        Some(OutputMode::Line)
    } else {
        None
    }
}

/// The name of a mode.
pub open spec fn mode_name(m: OutputMode) -> Seq<char> {
    match m {
        OutputMode::Table => "table"@,
        OutputMode::Csv => "csv"@,
        OutputMode::Json => "json"@,
        OutputMode::Line => "line"@,
    }
}

impl OutputMode {
    /// The mode that a name in any case stands for.
    pub fn parse(s: &str) -> (r: Option<OutputMode>)
        ensures
            r == mode_named(s@),
    {
        let name = lowercase(s);
        if same_text(name.as_str(), "table") {
            Some(OutputMode::Table)
        } else if same_text(name.as_str(), "csv") {
            Some(OutputMode::Csv)
        } else if same_text(name.as_str(), "json") {
            Some(OutputMode::Json)
        } else if same_text(name.as_str(), "line") {
            Some(OutputMode::Line)
        } else {
            None
        }
    }

    /// The name of the mode.
    pub fn as_str(&self) -> (r: &'static str)
        ensures
            r@ == mode_name(*self),
    {
        match self {
            OutputMode::Table => "table",
            OutputMode::Csv => "csv",
            OutputMode::Json => "json",
            OutputMode::Line => "line",
        }
    }
}

/// A text as a field of comma-separated values: between double quotes, with
/// every double quote doubled, where it holds a comma, a double quote or a
/// line break.
pub open spec fn csv_field(s: Seq<char>) -> Seq<char> {
    if text::contains_text(s, ","@) || text::contains_text(s, "\""@) || text::contains_text(
        s,
        "\n"@,
    ) {
        "\""@ + text::replaced(s, "\""@, "\"\""@) + "\""@
    } else {
        s
    }
}

/// A text as a field of comma-separated values.
pub fn csv_escape(s: &str) -> (r: String)
    ensures
        r@ == csv_field(s@),
{
    if text_contains(s, ",") || text_contains(s, "\"") || text_contains(s, "\n") {
        join3("\"", replace_text(s, "\"", "\"\"").as_str(), "\"")
    } else {
        s.to_owned()
    }
}

/// A text a number of times.
pub open spec fn repeated(s: Seq<char>, n: nat) -> Seq<char>
    decreases n,
{
    if n == 0 {
        seq![]
    } else {
        repeated(s, (n - 1) as nat) + s
    }
}

fn repeat_text(s: &str, n: usize) -> (r: String)
    ensures
        r@ == repeated(s@, n as nat),
{
    let mut out = String::new();
    let mut i: usize = 0;
    proof {
        assert(out@ =~= Seq::<char>::empty());
    }
    while i < n
        invariant
            i <= n,
            out@ == repeated(s@, i as nat),
        decreases n - i,
    {
        out.append(s);
        i += 1;
    }
    out
}

/// A cell of a table: a text with a space before it, and behind it spaces up
/// to a width in characters and one more.
pub open spec fn cell(s: Seq<char>, width: nat) -> Seq<char> {
    " "@ + s + repeated(
        " "@,
        if s.len() < width {
            (width - s.len()) as nat
        } else {
            0
        },
    ) + " "@
}

fn make_cell(s: &str, width: usize) -> (r: String)
    ensures
        r@ == cell(s@, width as nat),
{
    let n = chars_of(s).len();
    let pad = if n < width {
        repeat_text(" ", width - n)
    } else {
        repeat_text(" ", 0)
    };
    join2(join3(" ", s, pad.as_str()).as_str(), " ")
}

/// The number of bytes of a text.
pub open spec fn byte_len(s: Seq<char>) -> nat {
    encode_utf8(s).len()
}

fn count_bytes(s: &str) -> (r: usize)
    ensures
        r == byte_len(s@),
{
    s.as_bytes().len()
}

/// The width of a column: the largest number of bytes among its name and the
/// first `n` rows.
pub open spec fn width(name: Seq<char>, rows: Seq<Seq<Seq<char>>>, c: int, n: int) -> nat
    decreases n,
{
    if n <= 0 || n > rows.len() {
        byte_len(name)
    } else {
        let before = width(name, rows, c, n - 1);
        if c < rows[n - 1].len() && before < byte_len(rows[n - 1][c]) {
            byte_len(rows[n - 1][c])
        } else {
            before
        }
    }
}

/// The widths of columns.
pub open spec fn widths(names: Seq<Seq<char>>, rows: Seq<Seq<Seq<char>>>) -> Seq<nat> {
    Seq::new(names.len(), |c: int| width(names[c], rows, c, rows.len() as int))
}

/// A horizontal line of a table: for each column a run of dashes two longer
/// than its width.
pub open spec fn rule(ws: Seq<nat>, left: Seq<char>, mid: Seq<char>, right: Seq<char>) -> Seq<char> {
    left + text::joined(
        Seq::new(ws.len(), |c: int| repeated("\u{2500}"@, ws[c] + 2)),
        mid,
    ) + right + "\n"@
}

/// A row of a table: as many cells as there are both values and columns.
pub open spec fn table_row(ts: Seq<Seq<char>>, ws: Seq<nat>) -> Seq<char> {
    "\u{2502}"@ + text::joined(
        Seq::new(
            if ts.len() < ws.len() {
                ts.len()
            } else {
                ws.len()
            },
            |c: int| cell(ts[c], ws[c]),
        ),
        "\u{2502}"@,
    ) + "\u{2502}\n"@
}

/// The first `n` rows of a table, one after another.
pub open spec fn table_rows(rows: Seq<Seq<Seq<char>>>, ws: Seq<nat>, n: int) -> Seq<char>
    decreases n,
{
    if n <= 0 || n > rows.len() {
        seq![]
    } else {
        table_rows(rows, ws, n - 1) + table_row(rows[n - 1], ws)
    }
}

/// Names and rows of texts as a table.
pub open spec fn table(names: Seq<Seq<char>>, rows: Seq<Seq<Seq<char>>>) -> Seq<char> {
    let ws = widths(names, rows);
    rule(ws, "\u{250c}"@, "\u{252c}"@, "\u{2510}"@) + table_row(names, ws) + rule(
        ws,
        "\u{251c}"@,
        "\u{253c}"@,
        "\u{2524}"@,
    ) + table_rows(rows, ws, rows.len() as int) + rule(
        ws,
        "\u{2514}"@,
        "\u{2534}"@,
        "\u{2518}"@,
    )
}

/// The view of rows of texts.
pub open spec fn grid(s: Seq<Vec<String>>) -> Seq<Seq<Seq<char>>> {
    Seq::new(s.len(), |i: int| text::texts_view(s[i]@))
}

/// The view of widths.
pub open spec fn sizes(s: Seq<usize>) -> Seq<nat> {
    Seq::new(s.len(), |i: int| s[i] as nat)
}

fn column_width(name: &str, rows: &Vec<Vec<String>>, c: usize) -> (r: usize)
    ensures
        r == width(name@, grid(rows@), c as int, rows@.len() as int),
{
    let mut w = count_bytes(name);
    let mut i: usize = 0;
    while i < rows.len()
        invariant
            i <= rows.len(),
            w == width(name@, grid(rows@), c as int, i as int),
        decreases rows.len() - i,
    {
        proof {
            assert(grid(rows@)[i as int] == text::texts_view(rows@[i as int]@));
        }
        if c < rows[i].len() {
            proof {
                assert(grid(rows@)[i as int][c as int] == rows@[i as int]@[c as int]@);
            }
            let n = count_bytes(rows[i][c].as_str());
            if w < n {
                w = n;
            }
        }
        i += 1;
    }
    w
}

fn column_widths(names: &Vec<String>, rows: &Vec<Vec<String>>) -> (r: Vec<usize>)
    ensures
        sizes(r@) == widths(text::texts_view(names@), grid(rows@)),
{
    let mut out: Vec<usize> = Vec::new();
    let mut c: usize = 0;
    while c < names.len()
        invariant
            c <= names.len(),
            out@.len() == c,
            forall|j: int|
                0 <= j < c ==> (#[trigger] out@[j]) == width(
                    text::texts_view(names@)[j],
                    grid(rows@),
                    j,
                    rows@.len() as int,
                ),
        decreases names.len() - c,
    {
        let w = column_width(names[c].as_str(), rows, c);
        out.push(w);
        c += 1;
    }
    proof {
        assert(sizes(out@) =~= widths(text::texts_view(names@), grid(rows@)));
    }
    out
}

/// A text that many times and twice more.
fn repeat_wider(s: &str, n: usize) -> (r: String)
    ensures
        r@ == repeated(s@, n as nat + 2),
{
    let mut t = repeat_text(s, n);
    t.append(s);
    t.append(s);
    proof {
        assert(repeated(s@, n as nat + 1) == repeated(s@, n as nat) + s@);
        assert(repeated(s@, n as nat + 2) == repeated(s@, n as nat + 1) + s@);
    }
    t
}

fn make_rule(ws: &Vec<usize>, left: &str, mid: &str, right: &str) -> (r: String)
    ensures
        r@ == rule(sizes(ws@), left@, mid@, right@),
{
    let mut parts: Vec<String> = Vec::new();
    let mut c: usize = 0;
    while c < ws.len()
        invariant
            c <= ws.len(),
            parts@.len() == c,
            forall|j: int|
                0 <= j < c ==> (#[trigger] parts@[j])@ == repeated("\u{2500}"@, ws@[j] as nat + 2),
        decreases ws.len() - c,
    {
        let p = repeat_wider("\u{2500}", ws[c]);
        parts.push(p);
        c += 1;
    }
    proof {
        assert(text::texts_view(parts@) =~= Seq::new(
            sizes(ws@).len(),
            |c: int| repeated("\u{2500}"@, sizes(ws@)[c] + 2),
        ));
    }
    join2(join3(left, join_texts(&parts, mid).as_str(), right).as_str(), "\n")
}

fn make_row(ts: &Vec<String>, ws: &Vec<usize>) -> (r: String)
    ensures
        r@ == table_row(text::texts_view(ts@), sizes(ws@)),
{
    let n = if ts.len() < ws.len() {
        ts.len()
    } else {
        ws.len()
    };
    let mut cells: Vec<String> = Vec::new();
    let mut c: usize = 0;
    while c < n
        invariant
            c <= n,
            n <= ts.len(),
            n <= ws.len(),
            cells@.len() == c,
            forall|j: int| 0 <= j < c ==> (#[trigger] cells@[j])@ == cell(ts@[j]@, ws@[j] as nat),
        decreases n - c,
    {
        let t = make_cell(ts[c].as_str(), ws[c]);
        cells.push(t);
        c += 1;
    }
    proof {
        let tv = text::texts_view(ts@);
        let wv = sizes(ws@);
        assert(text::texts_view(cells@) =~= Seq::new(
            if tv.len() < wv.len() {
                tv.len()
            } else {
                wv.len()
            },
            |c: int| cell(tv[c], wv[c]),
        ));
    }
    join3("\u{2502}", join_texts(&cells, "\u{2502}").as_str(), "\u{2502}\n")
}

/// Names and rows of texts as a table.
pub fn make_table(names: &Vec<String>, rows: &Vec<Vec<String>>) -> (r: String)
    ensures
        r@ == table(text::texts_view(names@), grid(rows@)),
{
    let ws = column_widths(names, rows);
    let ghost wv = sizes(ws@);
    let mut body = String::new();
    let mut i: usize = 0;
    proof {
        assert(body@ =~= Seq::<char>::empty());
    }
    while i < rows.len()
        invariant
            i <= rows.len(),
            wv == sizes(ws@),
            body@ == table_rows(grid(rows@), wv, i as int),
        decreases rows.len() - i,
    {
        let t = make_row(&rows[i], &ws);
        proof {
            assert(grid(rows@)[i as int] == text::texts_view(rows@[i as int]@));
        }
        body.append(t.as_str());
        i += 1;
    }
    let top = make_rule(&ws, "\u{250c}", "\u{252c}", "\u{2510}");
    let middle = make_rule(&ws, "\u{251c}", "\u{253c}", "\u{2524}");
    let bottom = make_rule(&ws, "\u{2514}", "\u{2534}", "\u{2518}");
    let head = join3(top.as_str(), make_row(names, &ws).as_str(), middle.as_str());
    join3(head.as_str(), body.as_str(), bottom.as_str())
}

/// The rows of a result as texts, the first `n`.
pub open spec fn rows_shown(ans: AnswersV, rows: Seq<Seq<ValV>>, n: int) -> Result<
    Seq<Seq<Seq<char>>>,
    ErrV,
>
    decreases n,
{
    if n <= 0 || n > rows.len() {
        Ok(seq![])
    } else {
        match rows_shown(ans, rows, n - 1) {
            Err(x) => Err(x),
            Ok(before) => match collected(all_shown(ans, rows[n - 1])) {
                Ok(ts) => Ok(before.push(ts)),
                Err(x) => Err(x),
            },
        }
    }
}

proof fn lemma_rows_stop(ans: AnswersV, rows: Seq<Seq<ValV>>, n: int)
    requires
        0 <= n <= rows.len(),
        rows_shown(ans, rows, n) is Err,
    ensures
        rows_shown(ans, rows, rows.len() as int) == rows_shown(ans, rows, n),
    decreases rows.len() - n,
{
    if n < rows.len() {
        lemma_rows_stop(ans, rows, n + 1);
    }
}

fn rows_to_display<O: Outside>(rows: &Vec<ResultRow>, outside: &O) -> (r: Result<
    Vec<Vec<String>>,
    CypherError,
>)
    ensures
        (match r {
            Ok(v) => Ok(grid(v@)),
            Err(e) => Err(e@),
        }) == rows_shown(outside.answers(), executor::rows_view(rows@), rows@.len() as int),
{
    let ghost ans = outside.answers();
    let ghost want = executor::rows_view(rows@);
    let mut out: Vec<Vec<String>> = Vec::new();
    let mut i: usize = 0;
    proof {
        assert(grid(out@) =~= Seq::<Seq<Seq<char>>>::empty());
    }
    while i < rows.len()
        invariant
            i <= rows.len(),
            ans == outside.answers(),
            want == executor::rows_view(rows@),
            rows_shown(ans, want, i as int) == Ok::<Seq<Seq<Seq<char>>>, ErrV>(grid(out@)),
        decreases rows.len() - i,
    {
        proof {
            assert(want[i as int] == value::vals_view(rows@[i as int].values@));
            assert(rows_shown(ans, want, i as int + 1) == (match collected(
                all_shown(ans, want[i as int]),
            ) {
                Ok(ts) => Ok(grid(out@).push(ts)),
                Err(x) => Err(x),
            }));
        }
        match collect(values_to_display(&rows[i].values, outside)) {
            Ok(ts) => {
                proof {
                    assert(grid(out@.push(ts)) =~= grid(out@).push(text::texts_view(ts@)));
                }
                out.push(ts);
            },
            Err(e) => {
                proof {
                    lemma_rows_stop(ans, want, i as int + 1);
                }
                return Err(e);
            },
        }
        i += 1;
    }
    Ok(out)
}

/// A line of comma-separated values.
pub open spec fn csv_line(ts: Seq<Seq<char>>) -> Seq<char> {
    text::joined(Seq::new(ts.len(), |i: int| csv_field(ts[i])), ","@) + "\n"@
}

/// The first `n` rows as lines of comma-separated values.
pub open spec fn csv_lines(rows: Seq<Seq<Seq<char>>>, n: int) -> Seq<char>
    decreases n,
{
    if n <= 0 || n > rows.len() {
        seq![]
    } else {
        csv_lines(rows, n - 1) + csv_line(rows[n - 1])
    }
}

fn make_csv_line(ts: &Vec<String>) -> (r: String)
    ensures
        r@ == csv_line(text::texts_view(ts@)),
{
    let mut fields: Vec<String> = Vec::new();
    let mut i: usize = 0;
    while i < ts.len()
        invariant
            i <= ts.len(),
            fields@.len() == i,
            forall|j: int| 0 <= j < i ==> (#[trigger] fields@[j])@ == csv_field(ts@[j]@),
        decreases ts.len() - i,
    {
        let f = csv_escape(ts[i].as_str());
        fields.push(f);
        i += 1;
    }
    proof {
        let tv = text::texts_view(ts@);
        assert(text::texts_view(fields@) =~= Seq::new(tv.len(), |i: int| csv_field(tv[i])));
    }
    join2(join_texts(&fields, ",").as_str(), "\n")
}

fn make_csv(names: &Vec<String>, rows: &Vec<Vec<String>>) -> (r: String)
    ensures
        r@ == csv_line(text::texts_view(names@)) + csv_lines(grid(rows@), rows@.len() as int),
{
    let head = make_csv_line(names);
    let mut body = String::new();
    let mut i: usize = 0;
    proof {
        assert(body@ =~= Seq::<char>::empty());
    }
    while i < rows.len()
        invariant
            i <= rows.len(),
            body@ == csv_lines(grid(rows@), i as int),
        decreases rows.len() - i,
    {
        let t = make_csv_line(&rows[i]);
        proof {
            assert(grid(rows@)[i as int] == text::texts_view(rows@[i as int]@));
        }
        body.append(t.as_str());
        i += 1;
    }
    join2(head.as_str(), body.as_str())
}

/// The columns of a row that have a name, each as JSON with its name.
pub open spec fn json_pairs(ans: AnswersV, names: Seq<Seq<char>>, row: Seq<ValV>) -> Seq<TextV> {
    Seq::new(
        if names.len() < row.len() {
            names.len()
        } else {
            row.len()
        },
        |i: int| labelled("    \""@ + names[i] + "\""@, json_shown(ans, row[i])),
    )
}

/// A row as a JSON object over several lines.
pub open spec fn json_row(ans: AnswersV, names: Seq<Seq<char>>, row: Seq<ValV>) -> TextV {
    match collected(json_pairs(ans, names, row)) {
        Ok(ts) => Ok("  {\n"@ + text::joined(ts, ",\n"@) + "\n  }"@),
        Err(x) => Err(x),
    }
}

/// The rows of a result as JSON objects.
pub open spec fn json_rows(ans: AnswersV, t: ResultV) -> Seq<TextV> {
    Seq::new(t.rows.len(), |i: int| json_row(ans, t.columns, t.rows[i]))
}

/// A result as a JSON array of objects.
pub open spec fn json_array(ans: AnswersV, t: ResultV) -> TextV {
    if t.columns.len() == 0 || t.rows.len() == 0 {
        Ok("[]\n"@)
    } else {
        match collected(json_rows(ans, t)) {
            Ok(ts) => Ok("[\n"@ + text::joined(ts, ",\n"@) + "\n]\n"@),
            Err(x) => Err(x),
        }
    }
}

fn make_json_row<O: Outside>(names: &Vec<String>, row: &ResultRow, outside: &O) -> (r: Result<
    String,
    CypherError,
>)
    ensures
        literals::text_outcome(r) == json_row(
            outside.answers(),
            text::texts_view(names@),
            value::vals_view(row.values@),
        ),
{
    let n = if names.len() < row.values.len() {
        names.len()
    } else {
        row.values.len()
    };
    let mut pairs: Vec<Result<String, CypherError>> = Vec::new();
    let mut i: usize = 0;
    while i < n
        invariant
            i <= n,
            n <= names.len(),
            n <= row.values.len(),
            pairs@.len() == i,
            forall|j: int|
                0 <= j < i ==> literals::text_outcome(#[trigger] pairs@[j]) == labelled(
                    "    \""@ + names@[j]@ + "\""@,
                    json_shown(outside.answers(), value::vals_view(row.values@)[j]),
                ),
        decreases n - i,
    {
        proof {
            assert(value::vals_view(row.values@)[i as int] == row.values@[i as int]@);
        }
        let k = join3("    \"", names[i].as_str(), "\"");
        let v = cypher_to_json(&row.values[i], outside);
        let t = label_text(k.as_str(), v);
        pairs.push(t);
        i += 1;
    }
    proof {
        assert(outcomes(pairs@) =~= json_pairs(
            outside.answers(),
            text::texts_view(names@),
            value::vals_view(row.values@),
        ));
    }
    let ts = collect(pairs)?;
    Ok(join3("  {\n", join_texts(&ts, ",\n").as_str(), "\n  }"))
}

fn make_json<O: Outside>(t: &QueryResult, outside: &O) -> (r: Result<String, CypherError>)
    ensures
        literals::text_outcome(r) == json_array(outside.answers(), t@),
{
    if t.columns.len() == 0 || t.rows.len() == 0 {
        return Ok("[]\n".to_owned());
    }
    let mut rows: Vec<Result<String, CypherError>> = Vec::new();
    let mut i: usize = 0;
    while i < t.rows.len()
        invariant
            i <= t.rows.len(),
            rows@.len() == i,
            forall|j: int|
                0 <= j < i ==> literals::text_outcome(#[trigger] rows@[j]) == json_row(
                    outside.answers(),
                    t@.columns,
                    t@.rows[j],
                ),
        decreases t.rows.len() - i,
    {
        let x = make_json_row(&t.columns, &t.rows[i], outside);
        rows.push(x);
        i += 1;
    }
    proof {
        assert(outcomes(rows@) =~= json_rows(outside.answers(), t@));
    }
    let ts = collect(rows)?;
    Ok(join3("[\n", join_texts(&ts, ",\n").as_str(), "\n]\n"))
}

/// The first `n` columns of a row, a line for each.
pub open spec fn named_lines(names: Seq<Seq<char>>, ts: Seq<Seq<char>>, n: int) -> Seq<char>
    decreases n,
{
    if n <= 0 || n > names.len() || n > ts.len() {
        seq![]
    } else {
        named_lines(names, ts, n - 1) + names[n - 1] + " = "@ + ts[n - 1] + "\n"@
    }
}

/// A row, a line for each column that has a name.
pub open spec fn row_lines(names: Seq<Seq<char>>, ts: Seq<Seq<char>>) -> Seq<char> {
    named_lines(
        names,
        ts,
        if names.len() < ts.len() {
            names.len() as int
        } else {
            ts.len() as int
        },
    )
}

/// Rows, a line for each column, with empty lines between the rows.
pub open spec fn lines(names: Seq<Seq<char>>, rows: Seq<Seq<Seq<char>>>) -> Seq<char> {
    text::joined(Seq::new(rows.len(), |i: int| row_lines(names, rows[i])), "\n"@)
}

fn make_row_lines(names: &Vec<String>, ts: &Vec<String>) -> (r: String)
    ensures
        r@ == row_lines(text::texts_view(names@), text::texts_view(ts@)),
{
    let n = if names.len() < ts.len() {
        names.len()
    } else {
        ts.len()
    };
    let mut out = String::new();
    let mut i: usize = 0;
    proof {
        assert(out@ =~= Seq::<char>::empty());
    }
    while i < n
        invariant
            i <= n,
            n <= names.len(),
            n <= ts.len(),
            out@ == named_lines(text::texts_view(names@), text::texts_view(ts@), i as int),
        decreases n - i,
    {
        out.append(names[i].as_str());
        out.append(" = ");
        out.append(ts[i].as_str());
        out.append("\n");
        i += 1;
    }
    out
}

fn make_lines(names: &Vec<String>, rows: &Vec<Vec<String>>) -> (r: String)
    ensures
        r@ == lines(text::texts_view(names@), grid(rows@)),
{
    let mut out: Vec<String> = Vec::new();
    let mut i: usize = 0;
    while i < rows.len()
        invariant
            i <= rows.len(),
            out@.len() == i,
            forall|j: int|
                0 <= j < i ==> (#[trigger] out@[j])@ == row_lines(
                    text::texts_view(names@),
                    grid(rows@)[j],
                ),
        decreases rows.len() - i,
    {
        proof {
            assert(grid(rows@)[i as int] == text::texts_view(rows@[i as int]@));
        }
        let t = make_row_lines(names, &rows[i]);
        out.push(t);
        i += 1;
    }
    proof {
        let g = grid(rows@);
        assert(text::texts_view(out@) =~= Seq::new(
            g.len(),
            |i: int| row_lines(text::texts_view(names@), g[i]),
        ));
    }
    join_texts(&out, "\n")
}

/// A result in a mode. A table and comma-separated values without columns are
/// nothing.
pub open spec fn rendered(ans: AnswersV, mode: OutputMode, t: ResultV) -> TextV {
    match mode {
        OutputMode::Json => json_array(ans, t),
        _ => if t.columns.len() == 0 && mode != OutputMode::Line {
            Ok(seq![])
        } else {
            match rows_shown(ans, t.rows, t.rows.len() as int) {
                Err(x) => Err(x),
                Ok(rows) => match mode {
                    OutputMode::Table => Ok(table(t.columns, rows)),
                    OutputMode::Csv => Ok(
                        csv_line(t.columns) + csv_lines(rows, rows.len() as int),
                    ),
                    _ => Ok(lines(t.columns, rows)),
                },
            }
        },
    }
}

/// Shows a result in a mode.
pub fn render<O: Outside>(mode: OutputMode, t: &QueryResult, outside: &O) -> (r: Result<
    String,
    CypherError,
>)
    ensures
        literals::text_outcome(r) == rendered(outside.answers(), mode, t@),
{
    if mode == OutputMode::Json {
        return make_json(t, outside);
    }
    if t.columns.len() == 0 && mode != OutputMode::Line {
        let r = String::new();
        proof {
            assert(r@ =~= Seq::<char>::empty());
        }
        return Ok(r);
    }
    let rows = rows_to_display(&t.rows, outside)?;
    match mode {
        OutputMode::Table => Ok(make_table(&t.columns, &rows)),
        OutputMode::Csv => Ok(make_csv(&t.columns, &rows)),
        _ => Ok(make_lines(&t.columns, &rows)),
    }
}

} // verus!
