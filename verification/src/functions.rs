//! The built-in functions of expressions.
use crate::backend::StorageBackend;
use crate::error::{CypherError, ErrV};
use crate::number::{
    self, float_of_int, infinite, int_of_float, nan, order_floats, pseudo_rand, without_sign,
};
use crate::ops::{
    self, ask_value, outcome, slice_values, to_f64, EvalV,
};
use crate::outside::{Answer, AnswerV, AnswersV, ArithOp, MathFn, Outside, Request, RequestV};
use crate::store::{self, StoreV};
use crate::text::{
    self, chars_of, i64_text, join2, list_has, lowercase, read_signed, replace_text, reverse_text,
    same_text, slice_text, split_text, text_contains, trim_text, trim_text_end, trim_text_start,
    uppercase, Order,
};
use crate::value::{
    self, property_value_to_cypher, CypherValue, Edge, EdgeV, Node, NodeV, Path, PropertyMap,
    PropsV, RecV, Record, ValV, ValueMap,
};
use vstd::prelude::*;

verus! {

/// The built-in functions.
#[derive(Debug, Clone, Copy, PartialEq, Eq, Structural)]
pub enum Func {
    HasLabel,
    Id,
    Type,
    Labels,
    /// A function over groups of rows, which has no value on a single row.
    Aggregate,
    Coalesce,
    ToString,
    ToInteger,
    ToFloat,
    ToBoolean,
    Size,
    Length,
    Trim,
    LTrim,
    RTrim,
    ToUpper,
    ToLower,
    Reverse,
    Replace,
    Substring,
    Left,
    Right,
    Split,
    Abs,
    Sign,
    Math(MathFn),
    Atan2,
    Pi,
    E,
    Rand,
    Head,
    Last,
    Tail,
    Range,
    Keys,
    Properties,
    Exists,
    StartNode,
    EndNode,
    Nodes,
    Relationships,
    Unknown,
}

/// The function over groups of rows with a name, in lower case.
pub open spec fn is_aggregate(name: Seq<char>) -> bool {
    ||| name == "count"@
    ||| name == "sum"@
    ||| name == "avg"@
    ||| name == "min"@
    ||| name == "max"@
    ||| name == "collect"@
    ||| name == "percentilecont"@
    ||| name == "percentiledisc"@
    ||| name == "stdev"@
    ||| name == "stdevp"@
}

pub fn aggregate_name(name: &str) -> (r: bool)
    ensures
        r == is_aggregate(name@),
{
    same_text(name, "count") || same_text(name, "sum") || same_text(name, "avg") || same_text(
        name,
        "min",
    ) || same_text(name, "max") || same_text(name, "collect") || same_text(name, "percentilecont")
        || same_text(name, "percentiledisc") || same_text(name, "stdev") || same_text(name, "stdevp")
}

/// The function of one number with a name, in lower case.
pub open spec fn math_named(name: Seq<char>) -> Option<MathFn> {
    if name == "ceil"@ {
        Some(MathFn::Ceil)
    } else if name == "floor"@ {
        Some(MathFn::Floor)
    } else if name == "round"@ {
        Some(MathFn::Round)
    } else if name == "sqrt"@ {
        Some(MathFn::Sqrt)
    } else if name == "log"@ {
        Some(MathFn::Ln)
    } else if name == "log10"@ {
        Some(MathFn::Log10)
    } else if name == "exp"@ {
        Some(MathFn::Exp)
    } else if name == "sin"@ {
        Some(MathFn::Sin)
    } else if name == "cos"@ {
        Some(MathFn::Cos)
    } else if name == "tan"@ {
        Some(MathFn::Tan)
    } else if name == "asin"@ {
        Some(MathFn::Asin)
    } else if name == "acos"@ {
        Some(MathFn::Acos)
    } else if name == "atan"@ {
        Some(MathFn::Atan)
    } else if name == "degrees"@ {
        Some(MathFn::Degrees)
    } else if name == "radians"@ {
        Some(MathFn::Radians)
    } else if name == "cot"@ {
        Some(MathFn::Cot)
    } else if name == "haversin"@ {
        Some(MathFn::Haversin)
    } else {
        None
    }
}

fn math_function(name: &str) -> (r: Option<MathFn>)
    ensures
        r == math_named(name@),
{
    if same_text(name, "ceil") {
        Some(MathFn::Ceil)
    } else if same_text(name, "floor") {
        Some(MathFn::Floor)
    } else if same_text(name, "round") {
        Some(MathFn::Round)
    } else if same_text(name, "sqrt") {
        Some(MathFn::Sqrt)
    } else if same_text(name, "log") {
        Some(MathFn::Ln)
    } else if same_text(name, "log10") {
        Some(MathFn::Log10)
    } else if same_text(name, "exp") {
        Some(MathFn::Exp)
    } else if same_text(name, "sin") {
        Some(MathFn::Sin)
    } else if same_text(name, "cos") {
        Some(MathFn::Cos)
    } else if same_text(name, "tan") {
        Some(MathFn::Tan)
    } else if same_text(name, "asin") {
        Some(MathFn::Asin)
    } else if same_text(name, "acos") {
        Some(MathFn::Acos)
    } else if same_text(name, "atan") {
        Some(MathFn::Atan)
    } else if same_text(name, "degrees") {
        Some(MathFn::Degrees)
    } else if same_text(name, "radians") {
        Some(MathFn::Radians)
    } else if same_text(name, "cot") {
        Some(MathFn::Cot)
    } else if same_text(name, "haversin") {
        Some(MathFn::Haversin)
    } else {
        None
    }
}

/// The function with a name, in lower case.
#[verifier::opaque]
pub open spec fn function_named(name: Seq<char>) -> Func {
    if name == "__has_label"@ {
        Func::HasLabel
    } else if name == "id"@ {
        Func::Id
    } else if name == "type"@ {
        Func::Type
    } else if name == "labels"@ {
        Func::Labels
    } else if is_aggregate(name) {
        Func::Aggregate
    } else if name == "coalesce"@ {
        Func::Coalesce
    } else if name == "tostring"@ {
        Func::ToString
    } else if name == "tointeger"@ || name == "toint"@ {
        Func::ToInteger
    } else if name == "tofloat"@ {
        Func::ToFloat
    } else if name == "toboolean"@ {
        Func::ToBoolean
    } else if name == "size"@ {
        Func::Size
    } else if name == "length"@ {
        Func::Length
    } else if name == "trim"@ {
        Func::Trim
    } else if name == "ltrim"@ {
        Func::LTrim
    } else if name == "rtrim"@ {
        Func::RTrim
    } else if name == "toupper"@ {
        Func::ToUpper
    } else if name == "tolower"@ {
        Func::ToLower
    } else if name == "reverse"@ {
        Func::Reverse
    } else if name == "replace"@ {
        Func::Replace
    } else if name == "substring"@ {
        Func::Substring
    } else if name == "left"@ {
        Func::Left
    } else if name == "right"@ {
        Func::Right
    } else if name == "split"@ {
        Func::Split
    } else if name == "abs"@ {
        Func::Abs
    } else if name == "sign"@ {
        Func::Sign
    } else if name == "atan2"@ {
        Func::Atan2
    } else if name == "pi"@ {
        Func::Pi
    } else if name == "e"@ {
        Func::E
    } else if name == "rand"@ {
        Func::Rand
    } else if name == "head"@ {
        Func::Head
    } else if name == "last"@ {
        Func::Last
    } else if name == "tail"@ {
        Func::Tail
    } else if name == "range"@ {
        Func::Range
    } else if name == "keys"@ {
        Func::Keys
    } else if name == "properties"@ {
        Func::Properties
    } else if name == "exists"@ {
        Func::Exists
    } else if name == "startnode"@ {
        Func::StartNode
    } else if name == "endnode"@ {
        Func::EndNode
    } else if name == "nodes"@ {
        Func::Nodes
    } else if name == "relationships"@ || name == "rels"@ {
        Func::Relationships
    } else {
        match math_named(name) {
            Some(f) => Func::Math(f),
            None => Func::Unknown,
        }
    }
}

/// The function with a name, in lower case.
pub fn find_function(name: &str) -> (r: Func)
    ensures
        r == function_named(name@),
{
    proof {
        reveal(function_named);
    }
    if same_text(name, "__has_label") {
        Func::HasLabel
    } else if same_text(name, "id") {
        Func::Id
    } else if same_text(name, "type") {
        Func::Type
    } else if same_text(name, "labels") {
        Func::Labels
    } else if aggregate_name(name) {
        Func::Aggregate
    } else if same_text(name, "coalesce") {
        Func::Coalesce
    } else if same_text(name, "tostring") {
        Func::ToString
    } else if same_text(name, "tointeger") || same_text(name, "toint") {
        Func::ToInteger
    } else if same_text(name, "tofloat") {
        Func::ToFloat
    } else if same_text(name, "toboolean") {
        Func::ToBoolean
    } else if same_text(name, "size") {
        Func::Size
    } else if same_text(name, "length") {
        Func::Length
    } else if same_text(name, "trim") {
        Func::Trim
    } else if same_text(name, "ltrim") {
        Func::LTrim
    } else if same_text(name, "rtrim") {
        Func::RTrim
    } else if same_text(name, "toupper") {
        Func::ToUpper
    } else if same_text(name, "tolower") {
        Func::ToLower
    } else if same_text(name, "reverse") {
        Func::Reverse
    } else if same_text(name, "replace") {
        Func::Replace
    } else if same_text(name, "substring") {
        Func::Substring
    } else if same_text(name, "left") {
        Func::Left
    } else if same_text(name, "right") {
        Func::Right
    } else if same_text(name, "split") {
        Func::Split
    } else if same_text(name, "abs") {
        Func::Abs
    } else if same_text(name, "sign") {
        Func::Sign
    } else if same_text(name, "atan2") {
        Func::Atan2
    } else if same_text(name, "pi") {
        Func::Pi
    } else if same_text(name, "e") {
        Func::E
    } else if same_text(name, "rand") {
        Func::Rand
    } else if same_text(name, "head") {
        Func::Head
    } else if same_text(name, "last") {
        Func::Last
    } else if same_text(name, "tail") {
        Func::Tail
    } else if same_text(name, "range") {
        Func::Range
    } else if same_text(name, "keys") {
        Func::Keys
    } else if same_text(name, "properties") {
        Func::Properties
    } else if same_text(name, "exists") {
        Func::Exists
    } else if same_text(name, "startnode") {
        Func::StartNode
    } else if same_text(name, "endnode") {
        Func::EndNode
    } else if same_text(name, "nodes") {
        Func::Nodes
    } else if same_text(name, "relationships") || same_text(name, "rels") {
        Func::Relationships
    } else {
        match math_function(name) {
            Some(f) => Func::Math(f),
            None => Func::Unknown,
        }
    }
}

/// How many of its arguments a function evaluates, given how many there are.
/// With too few (or, for `range`, too many) it evaluates none.
#[verifier::opaque]
pub open spec fn args_used(f: Func, argc: int) -> int {
    match f {
        Func::HasLabel => if argc == 2 { 2 } else { 0 },
        Func::Aggregate | Func::Coalesce | Func::Pi | Func::E | Func::Rand | Func::Unknown => 0,
        Func::Replace => if argc >= 3 { 3 } else { 0 },
        Func::Substring => if argc >= 3 { 3 } else if argc == 2 { 2 } else { 0 },
        Func::Left | Func::Right | Func::Split | Func::Atan2 => if argc >= 2 { 2 } else { 0 },
        Func::Range => if argc == 2 || argc == 3 { argc } else { 0 },
        _ => if argc >= 1 { 1 } else { 0 },
    }
}

pub fn count_args(f: Func, argc: usize) -> (r: usize)
    ensures
        r == args_used(f, argc as int),
        r <= argc,
{
    proof {
        reveal(args_used);
    }
    match f {
        Func::HasLabel => if argc == 2 { 2 } else { 0 },
        Func::Aggregate | Func::Coalesce | Func::Pi | Func::E | Func::Rand | Func::Unknown => 0,
        Func::Replace => if argc >= 3 { 3 } else { 0 },
        Func::Substring => if argc >= 3 { 3 } else if argc == 2 { 2 } else { 0 },
        Func::Left | Func::Right | Func::Split | Func::Atan2 => if argc >= 2 { 2 } else { 0 },
        Func::Range => if argc == 2 || argc == 3 { argc } else { 0 },
        _ => if argc >= 1 { 1 } else { 0 },
    }
}

// ---------------------------------------------------------------------------
// Conversions
// ---------------------------------------------------------------------------

pub open spec fn bool_text(b: bool) -> Seq<char> {
    if b { "true"@ } else { "false"@ }
}

pub fn bool_string(b: bool) -> (r: String)
    ensures
        r@ == bool_text(b),
{
    if b {
        "true".to_owned()
    } else {
        "false".to_owned()
    }
}

/// A numeral that shows that its number is a floating-point number: with a
/// point or an exponent.
pub open spec fn pointed(t: Seq<char>) -> Seq<char> {
    if text::contains_text(t, "."@) || text::contains_text(t, "e"@) || text::contains_text(t, "E"@) {
        t
    } else {
        t + ".0"@
    }
}

pub fn with_point(t: String) -> (r: String)
    ensures
        r@ == pointed(t@),
{
    if text_contains(t.as_str(), ".") || text_contains(t.as_str(), "e") || text_contains(
        t.as_str(),
        "E",
    ) {
        t
    } else {
        join2(t.as_str(), ".0")
    }
}

/// The numeral of a floating-point number, as the source of answers gives it.
pub open spec fn numeral_for(ans: AnswersV, b: u64) -> Result<Seq<char>, ErrV> {
    match ans(RequestV::FormatFloat(b)) {
        Some(AnswerV::Text(t)) => Ok(t),
        _ => Err(ErrV::Pending(RequestV::FormatFloat(b))),
    }
}

pub fn ask_numeral<O: Outside>(outside: &O, b: u64) -> (r: Result<String, CypherError>)
    ensures
        match r {
            Ok(s) => numeral_for(outside.answers(), b) == Ok::<Seq<char>, ErrV>(s@),
            Err(e) => numeral_for(outside.answers(), b) == Err::<Seq<char>, ErrV>(e@),
        },
{
    let request = Request::FormatFloat(b);
    match outside.answer(&request) {
        Some(Answer::Text(s)) => Ok(s),
        _ => Err(CypherError::Pending(request)),
    }
}

/// The numeral of a floating-point number with one place behind the point, as
/// the source of answers gives it.
pub open spec fn tenths_for(ans: AnswersV, b: u64) -> Result<Seq<char>, ErrV> {
    match ans(RequestV::FormatTenths(b)) {
        Some(AnswerV::Text(t)) => Ok(t),
        _ => Err(ErrV::Pending(RequestV::FormatTenths(b))),
    }
}

pub fn ask_tenths<O: Outside>(outside: &O, b: u64) -> (r: Result<String, CypherError>)
    ensures
        match r {
            Ok(s) => tenths_for(outside.answers(), b) == Ok::<Seq<char>, ErrV>(s@),
            Err(e) => tenths_for(outside.answers(), b) == Err::<Seq<char>, ErrV>(e@),
        },
{
    let request = Request::FormatTenths(b);
    match outside.answer(&request) {
        Some(Answer::Text(s)) => Ok(s),
        _ => Err(CypherError::Pending(request)),
    }
}

/// The text of a floating-point number in queries.
pub open spec fn float_text(ans: AnswersV, b: u64) -> Result<Seq<char>, ErrV> {
    if number::is_nan(b) {
        Ok("NaN"@)
    } else if number::is_infinite(b) {
        if b >= number::SIGN_BIT {
            Ok("-Infinity"@)
        } else {
            Ok("Infinity"@)
        }
    } else {
        match numeral_for(ans, b) {
            Ok(t) => Ok(pointed(t)),
            Err(e) => Err(e),
        }
    }
}

pub fn float_to_cypher_string<O: Outside>(b: u64, outside: &O) -> (r: Result<String, CypherError>)
    ensures
        match r {
            Ok(s) => float_text(outside.answers(), b) == Ok::<Seq<char>, ErrV>(s@),
            Err(e) => float_text(outside.answers(), b) == Err::<Seq<char>, ErrV>(e@),
        },
{
    if nan(b) {
        Ok("NaN".to_owned())
    } else if infinite(b) {
        if b >= number::SIGN_BIT {
            Ok("-Infinity".to_owned())
        } else {
            Ok("Infinity".to_owned())
        }
    } else {
        match ask_numeral(outside, b) {
            Ok(t) => Ok(with_point(t)),
            Err(e) => Err(e),
        }
    }
}

/// `toString`: defined for scalars only.
pub open spec fn value_to_string(ans: AnswersV, v: ValV) -> EvalV {
    match v {
        ValV::Integer(i) => Ok(ValV::Str(text::int_text(i as int))),
        ValV::Float(f) => match float_text(ans, f) {
            Ok(t) => Ok(ValV::Str(t)),
            Err(e) => Err(e),
        },
        ValV::Str(s) => Ok(ValV::Str(s)),
        ValV::Boolean(b) => Ok(ValV::Str(bool_text(b))),
        _ => Ok(ValV::Null),
    }
}

fn apply_to_string<O: Outside>(v: &CypherValue, outside: &O) -> (r: Result<CypherValue, CypherError>)
    ensures
        outcome(r) == value_to_string(outside.answers(), v@),
{
    match v {
        CypherValue::Integer(i) => Ok(CypherValue::String(i64_text(*i))),
        CypherValue::Float(f) => match float_to_cypher_string(*f, outside) {
            Ok(s) => Ok(CypherValue::String(s)),
            Err(e) => Err(e),
        },
        CypherValue::String(s) => Ok(CypherValue::String(s.clone())),
        CypherValue::Boolean(b) => Ok(CypherValue::String(bool_string(*b))),
        _ => Ok(CypherValue::Null),
    }
}

/// `toInteger`: of a number, cut off at the point, or of a numeral.
pub open spec fn value_to_integer(v: ValV) -> ValV {
    match v {
        ValV::Integer(i) => v,
        ValV::Float(f) => match number::float_as_int(f) {
            Some(i) => ValV::Integer(i as i64),
            None => ValV::Null,
        },
        ValV::Str(s) => match text::signed_value(s, 10) {
            Some(i) => ValV::Integer(i as i64),
            None => ValV::Null,
        },
        _ => ValV::Null,
    }
}

fn apply_to_integer(v: &CypherValue) -> (r: CypherValue)
    ensures
        r@ == value_to_integer(v@),
{
    match v {
        CypherValue::Integer(i) => CypherValue::Integer(*i),
        CypherValue::Float(f) => match int_of_float(*f) {
            Some(i) => CypherValue::Integer(i),
            None => CypherValue::Null,
        },
        CypherValue::String(s) => {
            let chars = chars_of(s.as_str());
            proof {
                assert(chars@.skip(0) =~= chars@);
            }
            match read_signed(&chars, 0, 10) {
                Some(i) => CypherValue::Integer(i),
                None => CypherValue::Null,
            }
        },
        _ => CypherValue::Null,
    }
}

/// The number that a numeral denotes, as the source of answers gives it.
#[verifier::opaque]
pub open spec fn parsed_number(ans: AnswersV, s: Seq<char>) -> EvalV {
    match ans(RequestV::ParseFloat(s)) {
        Some(AnswerV::Float(b)) => Ok(ValV::Float(b)),
        Some(AnswerV::NoNumber) => Ok(ValV::Null),
        _ => Err(ErrV::Pending(RequestV::ParseFloat(s))),
    }
}

pub fn parse_number<O: Outside>(s: &str, outside: &O) -> (r: Result<CypherValue, CypherError>)
    ensures
        outcome(r) == parsed_number(outside.answers(), s@),
{
    proof {
        reveal(parsed_number);
    }
    let request = Request::ParseFloat(s.to_owned());
    match outside.answer(&request) {
        Some(Answer::Float(b)) => Ok(CypherValue::Float(b)),
        Some(Answer::NoNumber) => Ok(CypherValue::Null),
        _ => Err(CypherError::Pending(request)),
    }
}

pub open spec fn value_to_float(ans: AnswersV, v: ValV) -> EvalV {
    match v {
        ValV::Float(f) => Ok(v),
        ValV::Integer(i) => Ok(ValV::Float(number::int_as_float(i as int) as u64)),
        ValV::Str(s) => parsed_number(ans, s),
        _ => Ok(ValV::Null),
    }
}

fn apply_to_float<O: Outside>(v: &CypherValue, outside: &O) -> (r: Result<CypherValue, CypherError>)
    ensures
        outcome(r) == value_to_float(outside.answers(), v@),
{
    proof {
        reveal(parsed_number);
    }
    match v {
        CypherValue::Float(f) => Ok(CypherValue::Float(*f)),
        CypherValue::Integer(i) => Ok(CypherValue::Float(float_of_int(*i))),
        CypherValue::String(s) => parse_number(s.as_str(), outside),
        _ => Ok(CypherValue::Null),
    }
}

pub open spec fn value_to_boolean(v: ValV) -> ValV {
    match v {
        ValV::Boolean(b) => v,
        ValV::Str(s) => if text::lower_text(s) == "true"@ {
            ValV::Boolean(true)
        } else if text::lower_text(s) == "false"@ {
            ValV::Boolean(false)
        } else {
            ValV::Null
        },
        _ => ValV::Null,
    }
}

fn apply_to_boolean(v: &CypherValue) -> (r: CypherValue)
    ensures
        r@ == value_to_boolean(v@),
{
    match v {
        CypherValue::Boolean(b) => CypherValue::Boolean(*b),
        CypherValue::String(s) => {
            let l = lowercase(s.as_str());
            if same_text(l.as_str(), "true") {
                CypherValue::Boolean(true)
            } else if same_text(l.as_str(), "false") {
                CypherValue::Boolean(false)
            } else {
                CypherValue::Null
            }
        },
        _ => CypherValue::Null,
    }
}

// ---------------------------------------------------------------------------
// Texts
// ---------------------------------------------------------------------------

/// Functions from a text to a text.
pub open spec fn text_function(f: Func, s: Seq<char>) -> Seq<char> {
    match f {
        Func::Trim => text::trimmed(s),
        Func::LTrim => text::trimmed_start(s),
        Func::RTrim => text::trimmed_end(s),
        Func::ToUpper => text::upper_text(s),
        Func::ToLower => text::lower_text(s),
        _ => s,
    }
}

fn apply_text_function(f: Func, s: &str) -> (r: String)
    ensures
        r@ == text_function(f, s@),
{
    match f {
        Func::Trim => trim_text(s),
        Func::LTrim => trim_text_start(s),
        Func::RTrim => trim_text_end(s),
        Func::ToUpper => uppercase(s),
        Func::ToLower => lowercase(s),
        _ => s.to_owned(),
    }
}

/// A count as a position within a sequence: not below zero and not beyond its
/// length.
pub open spec fn clamp(n: int, len: int) -> int {
    if n < 0 {
        0
    } else if n < len {
        n
    } else {
        len
    }
}

fn clamp_count(n: i64, len: usize) -> (r: usize)
    ensures
        r == clamp(n as int, len as int),
        r <= len,
{
    if n < 0 {
        0
    } else if (n as u64) < len as u64 {
        n as usize
    } else {
        len
    }
}

/// `substring(s, start, length)`, without `length` to the end.
pub open spec fn substring_of(s: Seq<char>, start: i64, length: Option<ValV>) -> ValV {
    let from = clamp(start as int, s.len() as int);
    if from >= s.len() {
        ValV::Str(seq![])
    } else {
        match length {
            Some(ValV::Integer(n)) => ValV::Str(
                s.subrange(from, from + clamp(n as int, s.len() - from)),
            ),
            None => ValV::Str(s.skip(from)),
            _ => ValV::Null,
        }
    }
}

fn apply_substring(s: &str, start: i64, length: Option<&CypherValue>) -> (r: CypherValue)
    ensures
        r@ == substring_of(
            s@,
            start,
            match length {
                Some(v) => Some(v@),
                None => None,
            },
        ),
{
    let x = chars_of(s);
    let from = clamp_count(start, x.len());
    if from >= x.len() {
        return CypherValue::String(String::new());
    }
    match length {
        Some(CypherValue::Integer(n)) => {
            let k = clamp_count(*n, x.len() - from);
            CypherValue::String(slice_text(&x, from, from + k))
        },
        None => {
            proof {
                assert(x@.subrange(from as int, x@.len() as int) =~= x@.skip(from as int));
            }
            CypherValue::String(slice_text(&x, from, x.len()))
        },
        _ => CypherValue::Null,
    }
}

/// The texts of a list as values.
pub open spec fn texts_as_values(v: Seq<Seq<char>>) -> Seq<ValV> {
    Seq::new(v.len(), |i: int| ValV::Str(v[i]))
}

pub fn text_values(v: &Vec<String>) -> (r: Vec<CypherValue>)
    ensures
        value::vals_view(r@) == texts_as_values(text::texts_view(v@)),
{
    let mut r: Vec<CypherValue> = Vec::new();
    let mut i: usize = 0;
    while i < v.len()
        invariant
            i <= v.len(),
            r@.len() == i,
            forall|j: int| 0 <= j < i ==> (#[trigger] r@[j])@ == ValV::Str(v@[j]@),
        decreases v.len() - i,
    {
        r.push(CypherValue::String(v[i].clone()));
        i += 1;
    }
    proof {
        assert(value::vals_view(r@) =~= texts_as_values(text::texts_view(v@)));
    }
    r
}

// ---------------------------------------------------------------------------
// Numbers
// ---------------------------------------------------------------------------

pub open spec fn abs_of(v: ValV) -> ValV {
    match v {
        ValV::Integer(i) => if i == i64::MIN {
            ValV::Null
        } else if i < 0 {
            ValV::Integer((-i) as i64)
        } else {
            v
        },
        ValV::Float(f) => ValV::Float(number::magnitude(f)),
        _ => ValV::Null,
    }
}

fn apply_abs(v: &CypherValue) -> (r: CypherValue)
    ensures
        r@ == abs_of(v@),
{
    match v {
        CypherValue::Integer(i) => if *i == i64::MIN {
            CypherValue::Null
        } else if *i < 0 {
            CypherValue::Integer(-*i)
        } else {
            CypherValue::Integer(*i)
        },
        CypherValue::Float(f) => CypherValue::Float(without_sign(*f)),
        _ => CypherValue::Null,
    }
}

/// The sign of a number: 1, -1 or 0, which is also that of no number.
pub open spec fn sign_of(v: ValV) -> ValV {
    match v {
        ValV::Integer(i) => ValV::Integer(
            if i > 0 { 1i64 } else if i < 0 { -1i64 } else { 0i64 },
        ),
        ValV::Float(f) => ValV::Integer(
            match number::float_order(f, 0) {
                Some(Order::Greater) => 1i64,
                Some(Order::Less) => -1i64,
                _ => 0i64,
            },
        ),
        _ => ValV::Null,
    }
}

fn apply_sign(v: &CypherValue) -> (r: CypherValue)
    ensures
        r@ == sign_of(v@),
{
    match v {
        CypherValue::Integer(i) => CypherValue::Integer(
            if *i > 0 {
                1
            } else if *i < 0 {
                -1
            } else {
                0
            },
        ),
        CypherValue::Float(f) => CypherValue::Integer(
            match order_floats(*f, 0) {
                Some(Order::Greater) => 1,
                Some(Order::Less) => -1,
                _ => 0,
            },
        ),
        _ => CypherValue::Null,
    }
}

pub open spec fn math_of(ans: AnswersV, f: MathFn, v: ValV) -> EvalV {
    match ops::float_of(v) {
        Some(x) => ops::as_value(ops::number_for(ans, RequestV::Math(f, x))),
        None => Ok(ValV::Null),
    }
}

fn apply_math<O: Outside>(f: MathFn, v: &CypherValue, outside: &O) -> (r: Result<
    CypherValue,
    CypherError,
>)
    ensures
        outcome(r) == math_of(outside.answers(), f, v@),
{
    match to_f64(v) {
        Some(x) => ask_value(outside, Request::Math(f, x)),
        None => Ok(CypherValue::Null),
    }
}

pub open spec fn atan2_of(ans: AnswersV, y: ValV, x: ValV) -> EvalV {
    match (ops::float_of(y), ops::float_of(x)) {
        (Some(a), Some(b)) => ops::as_value(
            ops::number_for(ans, RequestV::Arith(ArithOp::Atan2, a, b)),
        ),
        _ => Ok(ValV::Null),
    }
}

fn apply_atan2<O: Outside>(y: &CypherValue, x: &CypherValue, outside: &O) -> (r: Result<
    CypherValue,
    CypherError,
>)
    ensures
        outcome(r) == atan2_of(outside.answers(), y@, x@),
{
    match (to_f64(y), to_f64(x)) {
        (Some(a), Some(b)) => ask_value(outside, Request::Arith(ArithOp::Atan2, a, b)),
        _ => Ok(CypherValue::Null),
    }
}

// ---------------------------------------------------------------------------
// Lists
// ---------------------------------------------------------------------------

/// The greatest number of items that `range` gives.
pub const MAX_RANGE_ELEMENTS: usize = 1_000_000;

/// The whole numbers from `i` to `end` in steps, at most `left` of them.
pub open spec fn range_items(i: int, end: int, step: int, left: nat) -> Seq<ValV>
    decreases left,
{
    if left == 0 || (step > 0 && i > end) || (step <= 0 && i < end) {
        seq![]
    } else if i64::MIN <= i + step <= i64::MAX {
        seq![ValV::Integer(i as i64)] + range_items(i + step, end, step, (left - 1) as nat)
    } else {
        seq![ValV::Integer(i as i64)]
    }
}

pub open spec fn range_of(s: ValV, e: ValV, st: ValV) -> ValV {
    match (s, e, st) {
        (ValV::Integer(a), ValV::Integer(b), ValV::Integer(c)) => if c == 0 {
            ValV::Null
        } else {
            ValV::List(range_items(a as int, b as int, c as int, MAX_RANGE_ELEMENTS as nat))
        },
        _ => ValV::Null,
    }
}

fn count_range(a: i64, b: i64, c: i64) -> (r: Vec<CypherValue>)
    requires
        c != 0,
    ensures
        value::vals_view(r@) == range_items(a as int, b as int, c as int, MAX_RANGE_ELEMENTS as nat),
{
    let mut r: Vec<CypherValue> = Vec::new();
    let mut i: i64 = a;
    let mut left: usize = MAX_RANGE_ELEMENTS;
    let ghost total = range_items(a as int, b as int, c as int, MAX_RANGE_ELEMENTS as nat);
    proof {
        assert(value::vals_view(r@) + total =~= total);
    }
    while left > 0 && ((c > 0 && i <= b) || (c < 0 && i >= b))
        invariant_except_break
            c != 0,
            value::vals_view(r@) + range_items(i as int, b as int, c as int, left as nat) =~= total,
        ensures
            value::vals_view(r@) =~= total,
        decreases left,
    {
        let ghost before = value::vals_view(r@);
        r.push(CypherValue::Integer(i));
        proof {
            assert(value::vals_view(r@) =~= before.push(ValV::Integer(i)));
        }
        match i.checked_add(c) {
            Some(n) => {
                proof {
                    assert(before.push(ValV::Integer(i)) + range_items(
                        n as int,
                        b as int,
                        c as int,
                        (left - 1) as nat,
                    ) =~= before + (seq![ValV::Integer(i)] + range_items(
                        n as int,
                        b as int,
                        c as int,
                        (left - 1) as nat,
                    )));
                }
                i = n;
            },
            None => {
                proof {
                    assert(before.push(ValV::Integer(i)) =~= before + seq![ValV::Integer(i)]);
                }
                break;
            },
        }
        left -= 1;
    }
    r
}

fn apply_range(s: &CypherValue, e: &CypherValue, st: &CypherValue) -> (r: CypherValue)
    ensures
        r@ == range_of(s@, e@, st@),
{
    match (s, e, st) {
        (CypherValue::Integer(a), CypherValue::Integer(b), CypherValue::Integer(c)) => if *c == 0 {
            CypherValue::Null
        } else {
            CypherValue::List(count_range(*a, *b, *c))
        },
        _ => CypherValue::Null,
    }
}

pub open spec fn reverse_of(v: ValV) -> ValV {
    match v {
        ValV::Str(s) => ValV::Str(s.reverse()),
        ValV::List(l) => ValV::List(l.reverse()),
        _ => ValV::Null,
    }
}

fn reverse_values(x: &Vec<CypherValue>) -> (r: Vec<CypherValue>)
    ensures
        value::vals_view(r@) == value::vals_view(x@).reverse(),
{
    let mut r: Vec<CypherValue> = Vec::new();
    let mut i: usize = x.len();
    let ghost want = value::vals_view(x@).reverse();
    while i > 0
        invariant
            i <= x.len(),
            want == value::vals_view(x@).reverse(),
            value::vals_view(r@) =~= want.take(x@.len() - i),
        decreases i,
    {
        let ghost before = value::vals_view(r@);
        i -= 1;
        let c = x[i].clone();
        r.push(c);
        proof {
            assert(value::vals_view(r@) =~= before.push(value::vals_view(x@)[i as int]));
            assert(want[x@.len() - 1 - i] == value::vals_view(x@)[i as int]);
        }
    }
    r
}

fn apply_reverse(v: &CypherValue) -> (r: CypherValue)
    ensures
        r@ == reverse_of(v@),
{
    match v {
        CypherValue::String(s) => CypherValue::String(reverse_text(s.as_str())),
        CypherValue::List(l) => CypherValue::List(reverse_values(l)),
        _ => CypherValue::Null,
    }
}

pub open spec fn head_of(v: ValV) -> ValV {
    match v {
        ValV::List(l) => if l.len() > 0 { l[0] } else { ValV::Null },
        _ => ValV::Null,
    }
}

pub open spec fn last_of(v: ValV) -> ValV {
    match v {
        ValV::List(l) => if l.len() > 0 { l.last() } else { ValV::Null },
        _ => ValV::Null,
    }
}

pub open spec fn tail_of(v: ValV) -> ValV {
    match v {
        ValV::List(l) => if l.len() > 0 { ValV::List(l.skip(1)) } else { ValV::List(l) },
        _ => ValV::Null,
    }
}

fn apply_head(v: &CypherValue) -> (r: CypherValue)
    ensures
        r@ == head_of(v@),
{
    match v {
        CypherValue::List(l) => if l.len() > 0 {
            l[0].clone()
        } else {
            CypherValue::Null
        },
        _ => CypherValue::Null,
    }
}

fn apply_last(v: &CypherValue) -> (r: CypherValue)
    ensures
        r@ == last_of(v@),
{
    match v {
        CypherValue::List(l) => if l.len() > 0 {
            l[l.len() - 1].clone()
        } else {
            CypherValue::Null
        },
        _ => CypherValue::Null,
    }
}

fn apply_tail(v: &CypherValue) -> (r: CypherValue)
    ensures
        r@ == tail_of(v@),
{
    match v {
        CypherValue::List(l) => if l.len() > 0 {
            proof {
                assert(value::vals_view(l@).subrange(1, l@.len() as int) =~= value::vals_view(
                    l@,
                ).skip(1));
            }
            CypherValue::List(slice_values(l, 1, l.len()))
        } else {
            let r: Vec<CypherValue> = Vec::new();
            proof {
                assert(value::vals_view(r@) =~= value::vals_view(l@));
            }
            CypherValue::List(r)
        },
        _ => CypherValue::Null,
    }
}

pub open spec fn size_of_value(v: ValV) -> ValV {
    match v {
        ValV::Str(s) => ValV::Integer(s.len() as i64),
        ValV::List(l) => ValV::Integer(l.len() as i64),
        _ => ValV::Null,
    }
}

fn apply_size(v: &CypherValue) -> (r: CypherValue)
    ensures
        r@ == size_of_value(v@),
{
    match v {
        CypherValue::String(s) => CypherValue::Integer(chars_of(s.as_str()).len() as i64),
        CypherValue::List(l) => CypherValue::Integer(l.len() as i64),
        _ => CypherValue::Null,
    }
}

// ---------------------------------------------------------------------------
// Nodes, relationships, paths and maps
// ---------------------------------------------------------------------------

/// The keys of a map as values.
pub open spec fn keys_as_values<W>(m: Seq<(Seq<char>, W)>) -> Seq<ValV> {
    Seq::new(m.len(), |i: int| ValV::Str(m[i].0))
}

pub open spec fn keys_of(v: ValV) -> ValV {
    match v {
        ValV::Node(n) => ValV::List(keys_as_values(n.properties)),
        ValV::Relationship(e) => ValV::List(keys_as_values(e.properties)),
        ValV::Dict(m) => ValV::List(keys_as_values(m)),
        _ => ValV::Null,
    }
}

fn prop_keys(m: &PropertyMap) -> (r: Vec<CypherValue>)
    ensures
        value::vals_view(r@) == keys_as_values(m@),
{
    let mut r: Vec<CypherValue> = Vec::new();
    let mut i: usize = 0;
    while i < m.entries.len()
        invariant
            i <= m.entries.len(),
            r@.len() == i,
            forall|j: int| 0 <= j < i ==> (#[trigger] r@[j])@ == ValV::Str(m.entries@[j].0@),
        decreases m.entries.len() - i,
    {
        r.push(CypherValue::String(m.entries[i].0.clone()));
        i += 1;
    }
    proof {
        assert(value::vals_view(r@) =~= keys_as_values(m@));
    }
    r
}

fn map_keys(m: &ValueMap) -> (r: Vec<CypherValue>)
    ensures
        value::vals_view(r@) == keys_as_values(m@),
{
    let mut r: Vec<CypherValue> = Vec::new();
    let mut i: usize = 0;
    while i < m.entries.len()
        invariant
            i <= m.entries.len(),
            r@.len() == i,
            forall|j: int| 0 <= j < i ==> (#[trigger] r@[j])@ == ValV::Str(m.entries@[j].0@),
        decreases m.entries.len() - i,
    {
        r.push(CypherValue::String(m.entries[i].0.clone()));
        i += 1;
    }
    proof {
        assert(value::vals_view(r@) =~= keys_as_values(m@));
    }
    r
}

fn apply_keys(v: &CypherValue) -> (r: CypherValue)
    ensures
        r@ == keys_of(v@),
{
    match v {
        CypherValue::Node(n) => CypherValue::List(prop_keys(&n.properties)),
        CypherValue::Relationship(e) => CypherValue::List(prop_keys(&e.properties)),
        CypherValue::MapValue(m) => CypherValue::List(map_keys(m)),
        _ => CypherValue::Null,
    }
}

/// Properties as a map of values.
pub open spec fn props_as_values(m: PropsV) -> RecV {
    Seq::new(m.len(), |i: int| (m[i].0, value::prop_as_value(m[i].1)))
}

pub open spec fn properties_of(v: ValV) -> ValV {
    match v {
        ValV::Node(n) => ValV::Dict(props_as_values(n.properties)),
        ValV::Relationship(e) => ValV::Dict(props_as_values(e.properties)),
        ValV::Dict(m) => v,
        _ => ValV::Null,
    }
}

fn props_to_map(m: &PropertyMap) -> (r: ValueMap)
    ensures
        r@ == props_as_values(m@),
{
    let mut out: Vec<(String, CypherValue)> = Vec::new();
    let mut i: usize = 0;
    while i < m.entries.len()
        invariant
            i <= m.entries.len(),
            out@.len() == i,
            forall|j: int|
                0 <= j < i ==> (#[trigger] out@[j]).0@ == m.entries@[j].0@ && out@[j].1@
                    == value::prop_as_value(m.entries@[j].1@),
        decreases m.entries.len() - i,
    {
        let k = m.entries[i].0.clone();
        let v = property_value_to_cypher(&m.entries[i].1);
        out.push((k, v));
        i += 1;
    }
    let r = ValueMap { entries: out };
    proof {
        assert(r@ =~= props_as_values(m@));
    }
    r
}

fn apply_properties(v: &CypherValue) -> (r: CypherValue)
    ensures
        r@ == properties_of(v@),
{
    match v {
        CypherValue::Node(n) => CypherValue::MapValue(props_to_map(&n.properties)),
        CypherValue::Relationship(e) => CypherValue::MapValue(props_to_map(&e.properties)),
        CypherValue::MapValue(m) => CypherValue::MapValue(m.clone()),
        _ => CypherValue::Null,
    }
}

/// The first node with an identifier that a row binds, from the `i`-th binding
/// on.
pub open spec fn bound_node(rec: RecV, id: u64, i: int) -> Option<NodeV>
    decreases rec.len() - i,
{
    if i < 0 || i >= rec.len() {
        None
    } else {
        match rec[i].1 {
            ValV::Node(n) => if n.id == id {
                Some(n)
            } else {
                bound_node(rec, id, i + 1)
            },
            _ => bound_node(rec, id, i + 1),
        }
    }
}

/// The node with an identifier: as the row binds it, else as it is stored.
pub open spec fn end_node(rec: RecV, st: StoreV, id: u64) -> ValV {
    match bound_node(rec, id, 0) {
        Some(n) => ValV::Node(n),
        None => match store::node_at(st, id) {
            Some(n) => ValV::Node(n),
            None => ValV::Null,
        },
    }
}

fn find_end<S: StorageBackend>(rec: &Record, storage: &S, id: u64) -> (r: CypherValue)
    requires
        storage.valid(),
    ensures
        r@ == end_node(rec@, storage.store(), id),
{
    let mut i: usize = 0;
    while i < rec.entries.len()
        invariant
            i <= rec.entries.len(),
            bound_node(rec@, id, 0) == bound_node(rec@, id, i as int),
        decreases rec.entries.len() - i,
    {
        if let CypherValue::Node(n) = &rec.entries[i].1 {
            if n.id == id {
                return CypherValue::Node(n.clone());
            }
        }
        i += 1;
    }
    match storage.get_node(id) {
        Some(n) => CypherValue::Node(n),
        None => CypherValue::Null,
    }
}

pub open spec fn nodes_as_values(v: Seq<NodeV>) -> Seq<ValV> {
    Seq::new(v.len(), |i: int| ValV::Node(v[i]))
}

pub open spec fn edges_as_values(v: Seq<EdgeV>) -> Seq<ValV> {
    Seq::new(v.len(), |i: int| ValV::Relationship(v[i]))
}

pub fn node_values(v: &Vec<Node>) -> (r: Vec<CypherValue>)
    ensures
        value::vals_view(r@) == nodes_as_values(value::nodes_view(v@)),
{
    let mut r: Vec<CypherValue> = Vec::new();
    let mut i: usize = 0;
    while i < v.len()
        invariant
            i <= v.len(),
            r@.len() == i,
            forall|j: int| 0 <= j < i ==> (#[trigger] r@[j])@ == ValV::Node(v@[j]@),
        decreases v.len() - i,
    {
        r.push(CypherValue::Node(v[i].clone()));
        i += 1;
    }
    proof {
        assert(value::vals_view(r@) =~= nodes_as_values(value::nodes_view(v@)));
    }
    r
}

pub fn edge_values(v: &Vec<Edge>) -> (r: Vec<CypherValue>)
    ensures
        value::vals_view(r@) == edges_as_values(value::edges_view(v@)),
{
    let mut r: Vec<CypherValue> = Vec::new();
    let mut i: usize = 0;
    while i < v.len()
        invariant
            i <= v.len(),
            r@.len() == i,
            forall|j: int| 0 <= j < i ==> (#[trigger] r@[j])@ == ValV::Relationship(v@[j]@),
        decreases v.len() - i,
    {
        r.push(CypherValue::Relationship(v[i].clone()));
        i += 1;
    }
    proof {
        assert(value::vals_view(r@) =~= edges_as_values(value::edges_view(v@)));
    }
    r
}

// ---------------------------------------------------------------------------
// All functions
// ---------------------------------------------------------------------------

/// A function of one value.
pub open spec fn apply_one(f: Func, v: ValV, rec: RecV, ans: AnswersV, st: StoreV) -> EvalV {
    match f {
        Func::Id => Ok(
            match v {
                ValV::Node(n) => ValV::Integer(n.id as i64),
                ValV::Relationship(e) => ValV::Integer(e.id as i64),
                _ => ValV::Null,
            },
        ),
        Func::Type => Ok(
            match v {
                ValV::Relationship(e) => ValV::Str(e.label),
                _ => ValV::Null,
            },
        ),
        Func::Labels => Ok(
            match v {
                ValV::Node(n) => ValV::List(texts_as_values(n.labels)),
                _ => ValV::Null,
            },
        ),
        Func::ToString => value_to_string(ans, v),
        Func::ToInteger => Ok(value_to_integer(v)),
        Func::ToFloat => value_to_float(ans, v),
        Func::ToBoolean => Ok(value_to_boolean(v)),
        Func::Size => Ok(size_of_value(v)),
        Func::Length => Ok(
            match v {
                ValV::Path(p) => ValV::Integer(p.relationships.len() as i64),
                _ => ValV::Null,
            },
        ),
        Func::Trim | Func::LTrim | Func::RTrim | Func::ToUpper | Func::ToLower => Ok(
            match v {
                ValV::Str(s) => ValV::Str(text_function(f, s)),
                _ => ValV::Null,
            },
        ),
        Func::Reverse => Ok(reverse_of(v)),
        Func::Abs => Ok(abs_of(v)),
        Func::Sign => Ok(sign_of(v)),
        Func::Math(m) => math_of(ans, m, v),
        Func::Head => Ok(head_of(v)),
        Func::Last => Ok(last_of(v)),
        Func::Tail => Ok(tail_of(v)),
        Func::Keys => Ok(keys_of(v)),
        Func::Properties => Ok(properties_of(v)),
        Func::Exists => Ok(ValV::Boolean(!(v is Null))),
        Func::StartNode => Ok(
            match v {
                ValV::Relationship(e) => end_node(rec, st, e.src),
                _ => ValV::Null,
            },
        ),
        Func::EndNode => Ok(
            match v {
                ValV::Relationship(e) => end_node(rec, st, e.dst),
                _ => ValV::Null,
            },
        ),
        Func::Nodes => Ok(
            match v {
                ValV::Path(p) => ValV::List(nodes_as_values(p.nodes)),
                _ => ValV::Null,
            },
        ),
        Func::Relationships => Ok(
            match v {
                ValV::Path(p) => ValV::List(edges_as_values(p.relationships)),
                _ => ValV::Null,
            },
        ),
        _ => Ok(ValV::Null),
    }
}

/// A function of two values, or of three.
pub open spec fn apply_more(f: Func, vals: Seq<ValV>, ans: AnswersV) -> EvalV {
    match f {
        Func::HasLabel => Ok(
            match (vals[0], vals[1]) {
                (ValV::Node(n), ValV::Str(l)) => ValV::Boolean(text::has_text(n.labels, l)),
                _ => ValV::Boolean(false),
            },
        ),
        Func::Substring => Ok(
            match (vals[0], vals[1]) {
                (ValV::Str(s), ValV::Integer(i)) => substring_of(
                    s,
                    i,
                    if vals.len() > 2 { Some(vals[2]) } else { None },
                ),
                _ => ValV::Null,
            },
        ),
        Func::Left => Ok(
            match (vals[0], vals[1]) {
                (ValV::Str(s), ValV::Integer(n)) => ValV::Str(
                    s.subrange(0, clamp(n as int, s.len() as int)),
                ),
                _ => ValV::Null,
            },
        ),
        Func::Right => Ok(
            match (vals[0], vals[1]) {
                (ValV::Str(s), ValV::Integer(n)) => ValV::Str(
                    s.subrange(s.len() - clamp(n as int, s.len() as int), s.len() as int),
                ),
                _ => ValV::Null,
            },
        ),
        Func::Split => Ok(
            match (vals[0], vals[1]) {
                (ValV::Str(s), ValV::Str(d)) => ValV::List(
                    texts_as_values(text::split_pieces(s, d)),
                ),
                _ => ValV::Null,
            },
        ),
        Func::Atan2 => atan2_of(ans, vals[0], vals[1]),
        Func::Range => Ok(
            range_of(
                vals[0],
                vals[1],
                if vals.len() > 2 { vals[2] } else { ValV::Integer(1) },
            ),
        ),
        Func::Replace => Ok(
            if vals.len() < 3 {
                ValV::Null
            } else {
                match (vals[0], vals[1], vals[2]) {
                    (ValV::Str(s), ValV::Str(a), ValV::Str(b)) => ValV::Str(text::replaced(s, a, b)),
                    _ => ValV::Null,
                }
            },
        ),
        _ => Ok(ValV::Null),
    }
}

/// The value of a function, given the values of the arguments that it
/// evaluates.
#[verifier::opaque]
pub open spec fn apply(
    f: Func,
    vals: Seq<ValV>,
    rec: RecV,
    ans: AnswersV,
    seed: u64,
    st: StoreV,
) -> EvalV {
    if f == Func::Pi {
        Ok(ValV::Float(number::PI_BITS))
    } else if f == Func::E {
        Ok(ValV::Float(number::E_BITS))
    } else if f == Func::Rand {
        Ok(ValV::Float(number::random_float(seed) as u64))
    } else if vals.len() == 0 {
        Ok(ValV::Null)
    } else if vals.len() == 1 {
        apply_one(f, vals[0], rec, ans, st)
    } else {
        apply_more(f, vals, ans)
    }
}

fn eval_one<S: StorageBackend, O: Outside>(
    f: Func,
    v: &CypherValue,
    rec: &Record,
    outside: &O,
    storage: &S,
) -> (r: Result<CypherValue, CypherError>)
    requires
        storage.valid(),
    ensures
        outcome(r) == apply_one(f, v@, rec@, outside.answers(), storage.store()),
{
    match f {
        Func::Id => Ok(
            match v {
                CypherValue::Node(n) => CypherValue::Integer(n.id as i64),
                CypherValue::Relationship(e) => CypherValue::Integer(e.id as i64),
                _ => CypherValue::Null,
            },
        ),
        Func::Type => Ok(
            match v {
                CypherValue::Relationship(e) => CypherValue::String(e.label.clone()),
                _ => CypherValue::Null,
            },
        ),
        Func::Labels => Ok(
            match v {
                CypherValue::Node(n) => CypherValue::List(text_values(&n.labels)),
                _ => CypherValue::Null,
            },
        ),
        Func::ToString => apply_to_string(v, outside),
        Func::ToInteger => Ok(apply_to_integer(v)),
        Func::ToFloat => apply_to_float(v, outside),
        Func::ToBoolean => Ok(apply_to_boolean(v)),
        Func::Size => Ok(apply_size(v)),
        Func::Length => Ok(
            match v {
                CypherValue::Path(p) => CypherValue::Integer(p.relationships.len() as i64),
                _ => CypherValue::Null,
            },
        ),
        Func::Trim | Func::LTrim | Func::RTrim | Func::ToUpper | Func::ToLower => Ok(
            match v {
                CypherValue::String(s) => CypherValue::String(apply_text_function(f, s.as_str())),
                _ => CypherValue::Null,
            },
        ),
        Func::Reverse => Ok(apply_reverse(v)),
        Func::Abs => Ok(apply_abs(v)),
        Func::Sign => Ok(apply_sign(v)),
        Func::Math(m) => apply_math(m, v, outside),
        Func::Head => Ok(apply_head(v)),
        Func::Last => Ok(apply_last(v)),
        Func::Tail => Ok(apply_tail(v)),
        Func::Keys => Ok(apply_keys(v)),
        Func::Properties => Ok(apply_properties(v)),
        Func::Exists => Ok(
            match v {
                CypherValue::Null => CypherValue::Boolean(false),
                _ => CypherValue::Boolean(true),
            },
        ),
        Func::StartNode => Ok(
            match v {
                CypherValue::Relationship(e) => find_end(rec, storage, e.src),
                _ => CypherValue::Null,
            },
        ),
        Func::EndNode => Ok(
            match v {
                CypherValue::Relationship(e) => find_end(rec, storage, e.dst),
                _ => CypherValue::Null,
            },
        ),
        Func::Nodes => Ok(
            match v {
                CypherValue::Path(p) => CypherValue::List(node_values(&p.nodes)),
                _ => CypherValue::Null,
            },
        ),
        Func::Relationships => Ok(
            match v {
                CypherValue::Path(p) => CypherValue::List(edge_values(&p.relationships)),
                _ => CypherValue::Null,
            },
        ),
        _ => Ok(CypherValue::Null),
    }
}

fn eval_more<O: Outside>(f: Func, vals: &Vec<CypherValue>, outside: &O) -> (r: Result<
    CypherValue,
    CypherError,
>)
    requires
        vals.len() >= 2,
    ensures
        outcome(r) == apply_more(f, value::vals_view(vals@), outside.answers()),
{
    match f {
        Func::HasLabel => Ok(
            match (&vals[0], &vals[1]) {
                (CypherValue::Node(n), CypherValue::String(l)) => CypherValue::Boolean(
                    list_has(&n.labels, l.as_str()),
                ),
                _ => CypherValue::Boolean(false),
            },
        ),
        Func::Substring => Ok(
            match (&vals[0], &vals[1]) {
                (CypherValue::String(s), CypherValue::Integer(i)) => if vals.len() > 2 {
                    apply_substring(s.as_str(), *i, Some(&vals[2]))
                } else {
                    apply_substring(s.as_str(), *i, None)
                },
                _ => CypherValue::Null,
            },
        ),
        Func::Left => Ok(
            match (&vals[0], &vals[1]) {
                (CypherValue::String(s), CypherValue::Integer(n)) => {
                    let x = chars_of(s.as_str());
                    let k = clamp_count(*n, x.len());
                    CypherValue::String(slice_text(&x, 0, k))
                },
                _ => CypherValue::Null,
            },
        ),
        Func::Right => Ok(
            match (&vals[0], &vals[1]) {
                (CypherValue::String(s), CypherValue::Integer(n)) => {
                    let x = chars_of(s.as_str());
                    let k = clamp_count(*n, x.len());
                    CypherValue::String(slice_text(&x, x.len() - k, x.len()))
                },
                _ => CypherValue::Null,
            },
        ),
        Func::Split => Ok(
            match (&vals[0], &vals[1]) {
                (CypherValue::String(s), CypherValue::String(d)) => CypherValue::List(
                    text_values(&split_text(s.as_str(), d.as_str())),
                ),
                _ => CypherValue::Null,
            },
        ),
        Func::Atan2 => apply_atan2(&vals[0], &vals[1], outside),
        Func::Range => Ok(
            if vals.len() > 2 {
                apply_range(&vals[0], &vals[1], &vals[2])
            } else {
                apply_range(&vals[0], &vals[1], &CypherValue::Integer(1))
            },
        ),
        Func::Replace => Ok(
            if vals.len() < 3 {
                CypherValue::Null
            } else {
                match (&vals[0], &vals[1], &vals[2]) {
                    (CypherValue::String(s), CypherValue::String(a), CypherValue::String(b)) =>
                        CypherValue::String(replace_text(s.as_str(), a.as_str(), b.as_str())),
                    _ => CypherValue::Null,
                }
            },
        ),
        _ => Ok(CypherValue::Null),
    }
}

/// The value of a function, given the values of the arguments that it
/// evaluates.
pub fn apply_function<S: StorageBackend, O: Outside>(
    f: Func,
    vals: &Vec<CypherValue>,
    rec: &Record,
    outside: &O,
    seed: u64,
    storage: &S,
) -> (r: Result<CypherValue, CypherError>)
    requires
        storage.valid(),
    ensures
        outcome(r) == apply(
            f,
            value::vals_view(vals@),
            rec@,
            outside.answers(),
            seed,
            storage.store(),
        ),
{
    proof {
        reveal(apply);
    }
    if f == Func::Pi {
        Ok(CypherValue::Float(number::PI_BITS))
    } else if f == Func::E {
        Ok(CypherValue::Float(number::E_BITS))
    } else if f == Func::Rand {
        Ok(CypherValue::Float(pseudo_rand(seed)))
    } else if vals.len() == 0 {
        Ok(CypherValue::Null)
    } else if vals.len() == 1 {
        eval_one(f, &vals[0], rec, outside, storage)
    } else {
        eval_more(f, vals, outside)
    }
}

} // verus!
