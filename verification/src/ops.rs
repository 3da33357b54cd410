//! The operators of expressions, on values.
use crate::assoc;
use crate::ast::{BinaryOp, CompOp, StringMatchOp, UnaryOp};
use crate::error::{CypherError, ErrV};
use crate::number::{self, float_of_int, negated, order_floats, zero};
use crate::outside::{Answer, AnswerV, AnswersV, ArithOp, Outside, Request, RequestV};
use crate::text::{
    self, chars_of, join2, join3, order_text, slice_text, text_contains, text_ends_with,
    text_starts_with, Order,
};
use crate::value::{self, clone_values, property_value_to_cypher, CypherValue, ValV};
use std::cmp::Ordering;
use vstd::prelude::*;

verus! {

/// What evaluating gives: a value or an error.
pub type EvalV = Result<ValV, ErrV>;

/// The view of the result of an evaluation.
pub open spec fn outcome(r: Result<CypherValue, CypherError>) -> EvalV {
    match r {
        Ok(v) => Ok(v@),
        Err(e) => Err(e@),
    }
}

// ---------------------------------------------------------------------------
// Numbers from outside
// ---------------------------------------------------------------------------

/// The number that answers a request; pending where no number does.
pub open spec fn number_for(ans: AnswersV, r: RequestV) -> Result<u64, ErrV> {
    match ans(r) {
        Some(AnswerV::Float(b)) => Ok(b),
        _ => Err(ErrV::Pending(r)),
    }
}

/// A number as the result of an evaluation.
pub open spec fn as_value(r: Result<u64, ErrV>) -> EvalV {
    match r {
        Ok(b) => Ok(ValV::Float(b)),
        Err(e) => Err(e),
    }
}

/// Asks for a number.
pub fn ask_number<O: Outside>(outside: &O, request: Request) -> (r: Result<u64, CypherError>)
    ensures
        match r {
            Ok(b) => number_for(outside.answers(), request@) == Ok::<u64, ErrV>(b),
            Err(e) => number_for(outside.answers(), request@) == Err::<u64, ErrV>(e@),
        },
{
    match outside.answer(&request) {
        Some(Answer::Float(b)) => Ok(b),
        _ => Err(CypherError::Pending(request)),
    }
}

/// Asks for a number that is the value of an expression.
pub fn ask_value<O: Outside>(outside: &O, request: Request) -> (r: Result<CypherValue, CypherError>)
    ensures
        outcome(r) == as_value(number_for(outside.answers(), request@)),
{
    match ask_number(outside, request) {
        Ok(b) => Ok(CypherValue::Float(b)),
        Err(e) => Err(e),
    }
}

/// A number as a floating-point value; `None` for what is no number.
pub open spec fn float_of(v: ValV) -> Option<u64> {
    match v {
        ValV::Integer(i) => Some(number::int_as_float(i as int) as u64),
        ValV::Float(f) => Some(f),
        _ => None,
    }
}

/// The bits of a number as a floating-point value.
pub fn to_f64(v: &CypherValue) -> (r: Option<u64>)
    ensures
        r == float_of(v@),
{
    match v {
        CypherValue::Integer(i) => Some(float_of_int(*i)),
        CypherValue::Float(f) => Some(*f),
        _ => None,
    }
}

// ---------------------------------------------------------------------------
// Properties
// ---------------------------------------------------------------------------

/// The property of a node, relationship or map; `Null` where there is none.
#[verifier::opaque]
pub open spec fn property_of(v: ValV, name: Seq<char>) -> ValV {
    match v {
        ValV::Node(n) => prop_or_null(n.properties, name),
        ValV::Relationship(e) => prop_or_null(e.properties, name),
        ValV::Dict(m) => value::value_or_null(m, name),
        _ => ValV::Null,
    }
}

/// A property as a value, `Null` where it is not there.
pub open spec fn prop_or_null(props: value::PropsV, name: Seq<char>) -> ValV {
    match assoc::lookup(props, name) {
        Some(p) => value::prop_as_value(p),
        None => ValV::Null,
    }
}

pub fn prop_value(props: &value::PropertyMap, name: &str) -> (r: CypherValue)
    ensures
        r@ == prop_or_null(props@, name@),
{
    match props.get(name) {
        Some(p) => property_value_to_cypher(p),
        None => CypherValue::Null,
    }
}

pub fn get_property(v: &CypherValue, prop_name: &str) -> (r: CypherValue)
    ensures
        r@ == property_of(v@, prop_name@),
{
    proof {
        reveal(property_of);
    }
    match v {
        CypherValue::Node(n) => prop_value(&n.properties, prop_name),
        CypherValue::Relationship(e) => prop_value(&e.properties, prop_name),
        CypherValue::MapValue(m) => m.get_or_null(prop_name),
        _ => CypherValue::Null,
    }
}

// ---------------------------------------------------------------------------
// Arithmetic
// ---------------------------------------------------------------------------

pub open spec fn maybe_int(o: Option<i64>) -> ValV {
    match o {
        Some(i) => ValV::Integer(i),
        None => ValV::Null,
    }
}

fn int_or_null(o: Option<i64>) -> (r: CypherValue)
    ensures
        r@ == maybe_int(o),
{
    match o {
        Some(i) => CypherValue::Integer(i),
        None => CypherValue::Null,
    }
}

/// An operation on two whole numbers. What does not fit is `Null`; dividing
/// by zero is an error.
pub open spec fn int_op(ans: AnswersV, l: i64, op: BinaryOp, r: i64) -> EvalV {
    match op {
        BinaryOp::Add => Ok(maybe_int(l.checked_add(r))),
        BinaryOp::Sub => Ok(maybe_int(l.checked_sub(r))),
        BinaryOp::Mul => Ok(maybe_int(l.checked_mul(r))),
        BinaryOp::Div => if r == 0 {
            Err(ErrV::Runtime("Division by zero"@))
        } else {
            Ok(maybe_int(l.checked_div(r)))
        },
        BinaryOp::Mod => if r == 0 {
            Err(ErrV::Runtime("Division by zero"@))
        } else {
            Ok(maybe_int(l.checked_rem(r)))
        },
        BinaryOp::Pow => as_value(
            number_for(
                ans,
                RequestV::Arith(
                    ArithOp::Pow,
                    number::int_as_float(l as int) as u64,
                    number::int_as_float(r as int) as u64,
                ),
            ),
        ),
    }
}

/// An operation on two floating-point values. Dividing by zero is `Null`.
pub open spec fn float_op(ans: AnswersV, l: u64, op: BinaryOp, r: u64) -> EvalV {
    match op {
        BinaryOp::Add => as_value(number_for(ans, RequestV::Arith(ArithOp::Add, l, r))),
        BinaryOp::Sub => as_value(number_for(ans, RequestV::Arith(ArithOp::Sub, l, r))),
        BinaryOp::Mul => as_value(number_for(ans, RequestV::Arith(ArithOp::Mul, l, r))),
        BinaryOp::Div => if number::is_zero(r) {
            Ok(ValV::Null)
        } else {
            as_value(number_for(ans, RequestV::Arith(ArithOp::Div, l, r)))
        },
        BinaryOp::Mod => if number::is_zero(r) {
            Ok(ValV::Null)
        } else {
            as_value(number_for(ans, RequestV::Arith(ArithOp::Rem, l, r)))
        },
        BinaryOp::Pow => as_value(number_for(ans, RequestV::Arith(ArithOp::Pow, l, r))),
    }
}

/// An operation on two values. `+` also joins two texts or two lists; what is
/// defined for no pair of these types is `Null`.
#[verifier::opaque]
pub open spec fn binary_op(ans: AnswersV, l: ValV, op: BinaryOp, r: ValV) -> EvalV {
    match (l, r) {
        (ValV::Str(a), ValV::Str(b)) => if op == BinaryOp::Add {
            Ok(ValV::Str(a + b))
        } else {
            Ok(ValV::Null)
        },
        (ValV::List(a), ValV::List(b)) => if op == BinaryOp::Add {
            Ok(ValV::List(a + b))
        } else {
            Ok(ValV::Null)
        },
        (ValV::Integer(a), ValV::Integer(b)) => int_op(ans, a, op, b),
        _ => match (float_of(l), float_of(r)) {
            (Some(a), Some(b)) => float_op(ans, a, op, b),
            _ => Ok(ValV::Null),
        },
    }
}

fn join_lists(a: &Vec<CypherValue>, b: &Vec<CypherValue>) -> (r: Vec<CypherValue>)
    ensures
        value::vals_view(r@) == value::vals_view(a@) + value::vals_view(b@),
{
    let mut r = clone_values(a);
    let mut t = clone_values(b);
    let ghost x = r@;
    let ghost y = t@;
    r.append(&mut t);
    proof {
        assert(value::vals_view(r@) =~= value::vals_view(x) + value::vals_view(y));
    }
    r
}

fn eval_int_op<O: Outside>(l: i64, op: BinaryOp, r: i64, outside: &O) -> (out: Result<
    CypherValue,
    CypherError,
>)
    ensures
        outcome(out) == int_op(outside.answers(), l, op, r),
{
    match op {
        BinaryOp::Add => Ok(int_or_null(l.checked_add(r))),
        BinaryOp::Sub => Ok(int_or_null(l.checked_sub(r))),
        BinaryOp::Mul => Ok(int_or_null(l.checked_mul(r))),
        BinaryOp::Div => if r == 0 {
            Err(CypherError::RuntimeError("Division by zero".to_owned()))
        } else {
            Ok(int_or_null(l.checked_div(r)))
        },
        BinaryOp::Mod => if r == 0 {
            Err(CypherError::RuntimeError("Division by zero".to_owned()))
        } else {
            Ok(int_or_null(l.checked_rem(r)))
        },
        BinaryOp::Pow => ask_value(
            outside,
            Request::Arith(ArithOp::Pow, float_of_int(l), float_of_int(r)),
        ),
    }
}

fn eval_float_op<O: Outside>(l: u64, op: BinaryOp, r: u64, outside: &O) -> (out: Result<
    CypherValue,
    CypherError,
>)
    ensures
        outcome(out) == float_op(outside.answers(), l, op, r),
{
    match op {
        BinaryOp::Add => ask_value(outside, Request::Arith(ArithOp::Add, l, r)),
        BinaryOp::Sub => ask_value(outside, Request::Arith(ArithOp::Sub, l, r)),
        BinaryOp::Mul => ask_value(outside, Request::Arith(ArithOp::Mul, l, r)),
        BinaryOp::Div => if zero(r) {
            Ok(CypherValue::Null)
        } else {
            ask_value(outside, Request::Arith(ArithOp::Div, l, r))
        },
        BinaryOp::Mod => if zero(r) {
            Ok(CypherValue::Null)
        } else {
            ask_value(outside, Request::Arith(ArithOp::Rem, l, r))
        },
        BinaryOp::Pow => ask_value(outside, Request::Arith(ArithOp::Pow, l, r)),
    }
}

pub fn eval_binary_op<O: Outside>(
    left: &CypherValue,
    op: BinaryOp,
    right: &CypherValue,
    outside: &O,
) -> (out: Result<CypherValue, CypherError>)
    ensures
        outcome(out) == binary_op(outside.answers(), left@, op, right@),
{
    proof {
        reveal(binary_op);
    }
    match (left, right) {
        (CypherValue::String(a), CypherValue::String(b)) => if op == BinaryOp::Add {
            Ok(CypherValue::String(join2(a.as_str(), b.as_str())))
        } else {
            Ok(CypherValue::Null)
        },
        (CypherValue::List(a), CypherValue::List(b)) => if op == BinaryOp::Add {
            Ok(CypherValue::List(join_lists(a, b)))
        } else {
            Ok(CypherValue::Null)
        },
        (CypherValue::Integer(a), CypherValue::Integer(b)) => eval_int_op(*a, op, *b, outside),
        _ => match (to_f64(left), to_f64(right)) {
            (Some(a), Some(b)) => eval_float_op(a, op, b, outside),
            _ => Ok(CypherValue::Null),
        },
    }
}

/// A sign before a value.
#[verifier::opaque]
pub open spec fn unary_op(op: UnaryOp, v: ValV) -> ValV {
    match (op, v) {
        (UnaryOp::Neg, ValV::Integer(i)) => if i == i64::MIN {
            ValV::Null
        } else {
            ValV::Integer((-i) as i64)
        },
        (UnaryOp::Neg, ValV::Float(f)) => ValV::Float(number::float_negated(f)),
        (UnaryOp::Pos, v) => v,
        _ => ValV::Null,
    }
}

pub fn eval_unary_op(op: UnaryOp, v: &CypherValue) -> (r: CypherValue)
    ensures
        r@ == unary_op(op, v@),
{
    proof {
        reveal(unary_op);
    }
    match op {
        UnaryOp::Neg => match v {
            CypherValue::Integer(i) => if *i == i64::MIN {
                CypherValue::Null
            } else {
                CypherValue::Integer(-*i)
            },
            CypherValue::Float(f) => CypherValue::Float(negated(*f)),
            _ => CypherValue::Null,
        },
        UnaryOp::Pos => v.clone(),
    }
}

// ---------------------------------------------------------------------------
// Order and equality
// ---------------------------------------------------------------------------

/// The order of two values; `None` where they cannot be compared.
#[verifier::opaque]
pub open spec fn value_order(l: ValV, r: ValV) -> Option<Order> {
    match (l, r) {
        (ValV::Integer(a), ValV::Integer(b)) => Some(
            if a < b {
                Order::Less
            } else if a > b {
                Order::Greater
            } else {
                Order::Equal
            },
        ),
        (ValV::Float(a), ValV::Float(b)) => number::float_order(a, b),
        (ValV::Integer(a), ValV::Float(b)) => number::float_order(
            number::int_as_float(a as int) as u64,
            b,
        ),
        (ValV::Float(a), ValV::Integer(b)) => number::float_order(
            a,
            number::int_as_float(b as int) as u64,
        ),
        (ValV::Str(a), ValV::Str(b)) => Some(text::text_order(a, b)),
        (ValV::Boolean(a), ValV::Boolean(b)) => Some(
            if a == b {
                Order::Equal
            } else if b {
                Order::Less
            } else {
                Order::Greater
            },
        ),
        _ => None,
    }
}

/// The order of two values; `None` where they cannot be compared.
pub fn order_values(l: &CypherValue, r: &CypherValue) -> (o: Option<Order>)
    ensures
        o == value_order(l@, r@),
{
    proof {
        reveal(value_order);
    }
    match (l, r) {
        (CypherValue::Integer(a), CypherValue::Integer(b)) => Some(
            if *a < *b {
                Order::Less
            } else if *a > *b {
                Order::Greater
            } else {
                Order::Equal
            },
        ),
        (CypherValue::Float(a), CypherValue::Float(b)) => order_floats(*a, *b),
        (CypherValue::Integer(a), CypherValue::Float(b)) => order_floats(float_of_int(*a), *b),
        (CypherValue::Float(a), CypherValue::Integer(b)) => order_floats(*a, float_of_int(*b)),
        (CypherValue::String(a), CypherValue::String(b)) => Some(
            order_text(a.as_str(), b.as_str()),
        ),
        (CypherValue::Boolean(a), CypherValue::Boolean(b)) => Some(
            if *a == *b {
                Order::Equal
            } else if *b {
                Order::Less
            } else {
                Order::Greater
            },
        ),
        _ => None,
    }
}

/// An order in the terms of the standard library.
pub open spec fn std_order(o: Option<Order>) -> Option<Ordering> {
    match o {
        Some(Order::Less) => Some(Ordering::Less),
        Some(Order::Equal) => Some(Ordering::Equal),
        Some(Order::Greater) => Some(Ordering::Greater),
        None => None,
    }
}

pub fn compare_values(left: &CypherValue, right: &CypherValue) -> (r: Option<Ordering>)
    ensures
        r == std_order(value_order(left@, right@)),
{
    match order_values(left, right) {
        Some(Order::Less) => Some(Ordering::Less),
        Some(Order::Equal) => Some(Ordering::Equal),
        Some(Order::Greater) => Some(Ordering::Greater),
        None => None,
    }
}

/// Exchanging two values flips their order.
pub proof fn lemma_value_order(l: ValV, r: ValV)
    ensures
        value_order(l, r) matches Some(o) ==> value_order(r, l) == Some(o.flipped()),
        value_order(l, r) is None <==> value_order(r, l) is None,
{
    reveal(value_order);
    match (l, r) {
        (ValV::Str(a), ValV::Str(b)) => {
            text::lemma_text_order(a, b);
        },
        (ValV::Float(a), ValV::Float(b)) => {
            number::lemma_float_order(a, b);
        },
        (ValV::Integer(a), ValV::Float(b)) => {
            number::lemma_float_order(number::int_as_float(a as int) as u64, b);
        },
        (ValV::Float(a), ValV::Integer(b)) => {
            number::lemma_float_order(a, number::int_as_float(b as int) as u64);
        },
        _ => {},
    }
}

/// Whether an order satisfies a comparison operator.
pub open spec fn order_holds(op: CompOp, o: Order) -> bool {
    match op {
        CompOp::Eq => o == Order::Equal,
        CompOp::Neq => o != Order::Equal,
        CompOp::Lt => o == Order::Less,
        CompOp::Gt => o == Order::Greater,
        CompOp::Lte => o != Order::Greater,
        CompOp::Gte => o != Order::Less,
    }
}

/// A comparison; `Null` where the values cannot be compared.
#[verifier::opaque]
pub open spec fn comparison(l: ValV, op: CompOp, r: ValV) -> ValV {
    match value_order(l, r) {
        Some(o) => ValV::Boolean(order_holds(op, o)),
        None => ValV::Null,
    }
}

pub fn eval_comparison(left: &CypherValue, op: CompOp, right: &CypherValue) -> (r: CypherValue)
    ensures
        r@ == comparison(left@, op, right@),
{
    proof {
        reveal(comparison);
    }
    match order_values(left, right) {
        Some(o) => CypherValue::Boolean(
            match op {
                CompOp::Eq => o == Order::Equal,
                CompOp::Neq => o != Order::Equal,
                CompOp::Lt => o == Order::Less,
                CompOp::Gt => o == Order::Greater,
                CompOp::Lte => o != Order::Greater,
                CompOp::Gte => o != Order::Less,
            },
        ),
        None => CypherValue::Null,
    }
}

/// Two values that compare as equal.
pub open spec fn values_equal(l: ValV, r: ValV) -> bool {
    value_order(l, r) == Some(Order::Equal)
}

pub fn equal_values(l: &CypherValue, r: &CypherValue) -> (b: bool)
    ensures
        b == values_equal(l@, r@),
{
    match order_values(l, r) {
        Some(Order::Equal) => true,
        _ => false,
    }
}

// ---------------------------------------------------------------------------
// Three-valued logic
// ---------------------------------------------------------------------------

/// A truth value; `None` for what is neither true nor false.
pub open spec fn truth(v: ValV) -> Option<bool> {
    match v {
        ValV::Boolean(b) => Some(b),
        _ => None,
    }
}

pub open spec fn of_truth(t: Option<bool>) -> ValV {
    match t {
        Some(b) => ValV::Boolean(b),
        None => ValV::Null,
    }
}

pub open spec fn and3(l: Option<bool>, r: Option<bool>) -> Option<bool> {
    if l == Some(false) || r == Some(false) {
        Some(false)
    } else if l == Some(true) && r == Some(true) {
        Some(true)
    } else {
        None
    }
}

pub open spec fn or3(l: Option<bool>, r: Option<bool>) -> Option<bool> {
    if l == Some(true) || r == Some(true) {
        Some(true)
    } else if l == Some(false) && r == Some(false) {
        Some(false)
    } else {
        None
    }
}

pub open spec fn xor3(l: Option<bool>, r: Option<bool>) -> Option<bool> {
    match (l, r) {
        (Some(a), Some(b)) => Some(a != b),
        _ => None,
    }
}

pub open spec fn not3(v: Option<bool>) -> Option<bool> {
    match v {
        Some(b) => Some(!b),
        None => None,
    }
}

fn to_bool(v: &CypherValue) -> (r: Option<bool>)
    ensures
        r == truth(v@),
{
    match v {
        CypherValue::Boolean(b) => Some(*b),
        _ => None,
    }
}

pub fn eval_and(left: &CypherValue, right: &CypherValue) -> (r: CypherValue)
    ensures
        r@ == of_truth(and3(truth(left@), truth(right@))),
{
    match (to_bool(left), to_bool(right)) {
        (Some(false), _) | (_, Some(false)) => CypherValue::Boolean(false),
        (Some(true), Some(true)) => CypherValue::Boolean(true),
        _ => CypherValue::Null,
    }
}

pub fn eval_or(left: &CypherValue, right: &CypherValue) -> (r: CypherValue)
    ensures
        r@ == of_truth(or3(truth(left@), truth(right@))),
{
    match (to_bool(left), to_bool(right)) {
        (Some(true), _) | (_, Some(true)) => CypherValue::Boolean(true),
        (Some(false), Some(false)) => CypherValue::Boolean(false),
        _ => CypherValue::Null,
    }
}

pub fn eval_xor(left: &CypherValue, right: &CypherValue) -> (r: CypherValue)
    ensures
        r@ == of_truth(xor3(truth(left@), truth(right@))),
{
    match (to_bool(left), to_bool(right)) {
        (Some(l), Some(r)) => CypherValue::Boolean(l != r),
        _ => CypherValue::Null,
    }
}

pub fn eval_not(v: &CypherValue) -> (r: CypherValue)
    ensures
        r@ == of_truth(not3(truth(v@))),
{
    match to_bool(v) {
        Some(b) => CypherValue::Boolean(!b),
        None => CypherValue::Null,
    }
}

/// The laws of the three-valued connectives: they are commutative and
/// associative, negation undoes itself, and De Morgan's rules hold.
pub proof fn lemma_three_valued(a: Option<bool>, b: Option<bool>, c: Option<bool>)
    ensures
        and3(a, b) == and3(b, a),
        or3(a, b) == or3(b, a),
        xor3(a, b) == xor3(b, a),
        and3(a, and3(b, c)) == and3(and3(a, b), c),
        or3(a, or3(b, c)) == or3(or3(a, b), c),
        not3(not3(a)) == a,
        not3(and3(a, b)) == or3(not3(a), not3(b)),
        not3(or3(a, b)) == and3(not3(a), not3(b)),
        and3(a, Some(true)) == a,
        or3(a, Some(false)) == a,
{
}

/// A value that lets a row pass a filter: true, and nothing else.
pub open spec fn truthy(v: ValV) -> bool {
    v == ValV::Boolean(true)
}

/// Whether a value lets a row pass a filter.
pub fn is_truthy(v: &CypherValue) -> (r: bool)
    ensures
        r == truthy(v@),
{
    match v {
        CypherValue::Boolean(b) => *b,
        _ => false,
    }
}

// ---------------------------------------------------------------------------
// Texts and lists
// ---------------------------------------------------------------------------

/// STARTS WITH, ENDS WITH and CONTAINS; `Null` unless both sides are texts.
#[verifier::opaque]
pub open spec fn string_op(l: ValV, op: StringMatchOp, r: ValV) -> ValV {
    match (l, r) {
        (ValV::Str(a), ValV::Str(b)) => ValV::Boolean(
            match op {
                StringMatchOp::StartsWith => text::starts_with_text(a, b),
                StringMatchOp::EndsWith => text::ends_with_text(a, b),
                StringMatchOp::Contains => text::contains_text(a, b),
            },
        ),
        _ => ValV::Null,
    }
}

pub fn eval_string_op(left: &CypherValue, op: StringMatchOp, right: &CypherValue) -> (r: CypherValue)
    ensures
        r@ == string_op(left@, op, right@),
{
    proof {
        reveal(string_op);
    }
    match (left, right) {
        (CypherValue::String(a), CypherValue::String(b)) => CypherValue::Boolean(
            match op {
                StringMatchOp::StartsWith => text_starts_with(a.as_str(), b.as_str()),
                StringMatchOp::EndsWith => text_ends_with(a.as_str(), b.as_str()),
                StringMatchOp::Contains => text_contains(a.as_str(), b.as_str()),
            },
        ),
        _ => CypherValue::Null,
    }
}

/// What the `regex` crate says of a pattern and a text: whether the pattern
/// matches somewhere in the text, `None` where it is no pattern. The crate also
/// refuses a pattern whose compiled form exceeds its default limit of ten
/// megabytes. That form holds words of the machine, so the verdict depends on
/// the number of bits in a word too: a 32-bit build can take a pattern that a
/// 64-bit build refuses.
pub uninterp spec fn regex_verdict(pattern: Seq<char>, s: Seq<char>, word: u32) -> Option<bool>;

/// `regex::Regex::new` and `regex::Regex::is_match`: compiling the pattern and
/// searching the text depend on these two and the size of a word alone, and the
/// result is `regex_verdict`.
#[verifier::external_body]
pub(crate) fn regex_search(pattern: &str, s: &str) -> (r: Option<bool>)
    ensures
        r == regex_verdict(pattern@, s@, usize::BITS),
{
    match regex::Regex::new(pattern) {
        Ok(re) => Some(re.is_match(s)),
        Err(_) => None,
    }
}

/// The pattern that matches a text as a whole.
pub open spec fn whole_pattern(p: Seq<char>) -> Seq<char> {
    "^(?:"@ + p + ")$"@
}

/// The verdict on a pattern as a value.
pub fn match_result(verdict: Option<bool>) -> (r: CypherValue)
    ensures
        r@ == of_truth(verdict),
{
    match verdict {
        Some(b) => CypherValue::Boolean(b),
        None => CypherValue::Null,
    }
}

/// `=~`: the pattern matches the whole text; `Null` unless both are texts and
/// the pattern is one.
#[verifier::opaque]
pub open spec fn regex_match(v: ValV, p: ValV) -> ValV {
    match (v, p) {
        (ValV::Str(s), ValV::Str(q)) => of_truth(
            regex_verdict(whole_pattern(q), s, usize::BITS),
        ),
        _ => ValV::Null,
    }
}

pub fn eval_regex_match(v: &CypherValue, pattern: &CypherValue) -> (r: CypherValue)
    ensures
        r@ == regex_match(v@, pattern@),
{
    proof {
        reveal(regex_match);
    }
    match (v, pattern) {
        (CypherValue::String(s), CypherValue::String(p)) => {
            let full = join3("^(?:", p.as_str(), ")$");
            match_result(regex_search(full.as_str(), s.as_str()))
        },
        _ => CypherValue::Null,
    }
}

/// One of the items from the `i`-th on equals the value.
pub open spec fn some_equal(v: ValV, items: Seq<ValV>, i: int) -> bool
    decreases items.len() - i,
{
    if i < 0 || i >= items.len() {
        false
    } else {
        values_equal(v, items[i]) || some_equal(v, items, i + 1)
    }
}

/// One of the items from the `i`-th on is `Null`.
pub open spec fn some_null(items: Seq<ValV>, i: int) -> bool
    decreases items.len() - i,
{
    if i < 0 || i >= items.len() {
        false
    } else {
        items[i] is Null || some_null(items, i + 1)
    }
}

/// `IN`: true where an item equals the value; otherwise `Null` where an item
/// is, else false.
#[verifier::opaque]
pub open spec fn in_list(v: ValV, list: ValV) -> ValV {
    match list {
        ValV::List(items) => if v is Null {
            ValV::Null
        } else if some_equal(v, items, 0) {
            ValV::Boolean(true)
        } else if some_null(items, 0) {
            ValV::Null
        } else {
            ValV::Boolean(false)
        },
        _ => ValV::Null,
    }
}

pub fn eval_in(v: &CypherValue, list: &CypherValue) -> (r: CypherValue)
    ensures
        r@ == in_list(v@, list@),
{
    proof {
        reveal(in_list);
    }
    match list {
        CypherValue::List(items) => {
            if let CypherValue::Null = v {
                return CypherValue::Null;
            }
            let mut has_null = false;
            let mut i: usize = 0;
            while i < items.len()
                invariant
                    i <= items.len(),
                    !(v@ is Null),
                    list@ == ValV::List(value::vals_view(items@)),
                    some_equal(v@, value::vals_view(items@), 0) == some_equal(
                        v@,
                        value::vals_view(items@),
                        i as int,
                    ),
                    some_null(value::vals_view(items@), 0) == (has_null || some_null(
                        value::vals_view(items@),
                        i as int,
                    )),
                decreases items.len() - i,
            {
                if let CypherValue::Null = &items[i] {
                    has_null = true;
                }
                if equal_values(v, &items[i]) {
                    proof {
                        reveal(in_list);
                        assert(some_equal(v@, value::vals_view(items@), i as int));
                    }
                    return CypherValue::Boolean(true);
                }
                i += 1;
            }
            if has_null {
                CypherValue::Null
            } else {
                CypherValue::Boolean(false)
            }
        },
        _ => CypherValue::Null,
    }
}

/// `base[key]`: a property by its name, or an item by its index, counted from
/// the end where it is negative.
#[verifier::opaque]
pub open spec fn dynamic_property(base: ValV, key: ValV) -> ValV {
    match key {
        ValV::Str(k) => property_of(base, k),
        ValV::Integer(i) => match base {
            ValV::List(items) => {
                let at = if i < 0 { items.len() + i } else { i as int };
                if 0 <= at < items.len() {
                    items[at]
                } else {
                    ValV::Null
                }
            },
            _ => ValV::Null,
        },
        _ => ValV::Null,
    }
}

pub fn eval_dynamic_property(base: &CypherValue, key: &CypherValue) -> (r: CypherValue)
    ensures
        r@ == dynamic_property(base@, key@),
{
    proof {
        reveal(dynamic_property);
        reveal(property_of);
    }
    match key {
        CypherValue::String(k) => get_property(base, k.as_str()),
        CypherValue::Integer(i) => match base {
            CypherValue::List(items) => {
                let len: i128 = items.len() as i128;
                let at: i128 = if *i < 0 {
                    len + (*i as i128)
                } else {
                    *i as i128
                };
                if 0 <= at && at < len {
                    items[at as usize].clone()
                } else {
                    CypherValue::Null
                }
            },
            _ => CypherValue::Null,
        },
        _ => CypherValue::Null,
    }
}

/// A bound of a slice: counted from the end where it is negative, and kept
/// within the length; `default` where it is missing or no whole number.
pub open spec fn slice_bound(v: Option<ValV>, len: int, default: int) -> int {
    match v {
        Some(ValV::Integer(i)) => if i < 0 {
            if len + i > 0 { len + i } else { 0 }
        } else if i < len {
            i as int
        } else {
            len
        },
        _ => default,
    }
}

pub open spec fn opt_value(o: Option<CypherValue>) -> Option<ValV> {
    match o {
        Some(v) => Some(v@),
        None => None,
    }
}

fn resolve_slice_index(v: &Option<CypherValue>, len: usize, default: usize) -> (r: usize)
    requires
        default <= len,
    ensures
        r == slice_bound(opt_value(*v), len as int, default as int),
        r <= len,
{
    match v {
        Some(CypherValue::Integer(i)) => {
            let n: i128 = len as i128;
            let k: i128 = *i as i128;
            if k < 0 {
                if n + k > 0 {
                    (n + k) as usize
                } else {
                    0
                }
            } else if k < n {
                k as usize
            } else {
                len
            }
        },
        _ => default,
    }
}

/// The part of a sequence between two bounds.
pub open spec fn between_bounds<T>(s: Seq<T>, start: Option<ValV>, end: Option<ValV>) -> Seq<T> {
    let from = slice_bound(start, s.len() as int, 0);
    let to = slice_bound(end, s.len() as int, s.len() as int);
    if from >= to {
        seq![]
    } else {
        s.subrange(from, to)
    }
}

/// `base[start..end]` of a list or a text.
#[verifier::opaque]
pub open spec fn slice_of(base: ValV, start: Option<ValV>, end: Option<ValV>) -> ValV {
    match base {
        ValV::List(items) => ValV::List(between_bounds(items, start, end)),
        ValV::Str(s) => ValV::Str(between_bounds(s, start, end)),
        _ => ValV::Null,
    }
}

/// The part of a list between two positions.
pub fn slice_values(v: &Vec<CypherValue>, from: usize, to: usize) -> (r: Vec<CypherValue>)
    requires
        from <= to <= v.len(),
    ensures
        value::vals_view(r@) == value::vals_view(v@).subrange(from as int, to as int),
{
    let mut r: Vec<CypherValue> = Vec::new();
    let mut i: usize = from;
    while i < to
        invariant
            from <= i <= to <= v.len(),
            value::vals_view(r@) =~= value::vals_view(v@).subrange(from as int, i as int),
        decreases to - i,
    {
        let ghost before = value::vals_view(r@);
        let c = v[i].clone();
        r.push(c);
        proof {
            assert(value::vals_view(r@) =~= before.push(value::vals_view(v@)[i as int]));
        }
        i += 1;
    }
    r
}

pub fn eval_list_slice(
    base: &CypherValue,
    start: &Option<CypherValue>,
    end: &Option<CypherValue>,
) -> (r: CypherValue)
    ensures
        r@ == slice_of(base@, opt_value(*start), opt_value(*end)),
{
    proof {
        reveal(slice_of);
    }
    match base {
        CypherValue::List(items) => {
            let from = resolve_slice_index(start, items.len(), 0);
            let to = resolve_slice_index(end, items.len(), items.len());
            if from >= to {
                proof {
                    assert(value::vals_view(Seq::<CypherValue>::empty()) =~= Seq::<ValV>::empty());
                }
                CypherValue::List(Vec::new())
            } else {
                CypherValue::List(slice_values(items, from, to))
            }
        },
        CypherValue::String(s) => {
            let chars = chars_of(s.as_str());
            let from = resolve_slice_index(start, chars.len(), 0);
            let to = resolve_slice_index(end, chars.len(), chars.len());
            if from >= to {
                CypherValue::String(String::new())
            } else {
                CypherValue::String(slice_text(&chars, from, to))
            }
        },
        _ => CypherValue::Null,
    }
}

} // verus!
