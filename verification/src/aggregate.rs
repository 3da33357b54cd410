//! Aggregation: groups of rows and functions over them.
use crate::arrange;
use crate::ast::{
    self, CaseAlternative, CaseV, Expression, ExprV, ItemV, KeyV, LitV, Literal, MapKey, ReturnItem,
};
use crate::assoc;
use crate::backend::StorageBackend;
use crate::error::{CypherError, ErrV};
use crate::eval::{eval_with_params, Ctx};
use crate::functions::{self, aggregate_name};
use crate::keying::{self, cypher_value_to_stable_key, values_key};
use crate::number::{self, order_floats};
use crate::ops::{self, ask_value, order_values, outcome, to_f64, EvalV};
use crate::outside::{Answer, AnswerV, AnswersV, Outside, Request, RequestV};
use crate::semantics::{self, EnvV};
use crate::store::StoreV;
use crate::text::{self, list_has, lowercase, same_text, Order};
use crate::value::{self, CypherValue, RecV, Record, ValV};
use vstd::prelude::*;

verus! {

// ---------------------------------------------------------------------------
// Which expressions aggregate
// ---------------------------------------------------------------------------

/// An expression holds a call of a function over groups.
pub open spec fn aggregates(e: ExprV) -> bool
    decreases e, 2nat,
{
    parts_aggregate(e)
}

/// The same, from the parts of the expression.
pub open spec fn parts_aggregate(e: ExprV) -> bool
    decreases e, 1nat,
{
    match e {
        ExprV::FunctionCall { name, distinct, args } => functions::is_aggregate(
            text::lower_text(name),
        ) || exprs_aggregate(args, 0),
        ExprV::Literal(l) => literal_aggregates(l),
        ExprV::BinaryOp { left, op, right } => aggregates(*left) || aggregates(*right),
        ExprV::UnaryOp { op, operand } => aggregates(*operand),
        ExprV::And(l, r) => aggregates(*l) || aggregates(*r),
        ExprV::Or(l, r) => aggregates(*l) || aggregates(*r),
        ExprV::Xor(l, r) => aggregates(*l) || aggregates(*r),
        ExprV::Not(x) => aggregates(*x),
        ExprV::IsNull(x) => aggregates(*x),
        ExprV::IsNotNull(x) => aggregates(*x),
        ExprV::Comparison { left, op, right } => aggregates(*left) || aggregates(*right),
        ExprV::StringOp { left, op, right } => aggregates(*left) || aggregates(*right),
        ExprV::Property(b, _) => aggregates(*b),
        ExprV::DynamicProperty { expr, key } => aggregates(*expr) || aggregates(*key),
        ExprV::ListSlice { expr, start, end } => aggregates(*expr) || opt_aggregates(start)
            || opt_aggregates(end),
        ExprV::Case { operand, alternatives, default } => opt_aggregates(operand)
            || cases_aggregate(alternatives, 0) || opt_aggregates(default),
        ExprV::RegexMatch { expr, pattern } => aggregates(*expr) || aggregates(*pattern),
        ExprV::In { expr, list } => aggregates(*expr) || aggregates(*list),
        ExprV::ListComprehension { variable, list, predicate, map_expr } => aggregates(*list)
            || opt_aggregates(predicate) || opt_aggregates(map_expr),
        ExprV::FilterPredicate { kind, variable, list, predicate } => aggregates(*list)
            || aggregates(*predicate),
        ExprV::Reduce { accumulator, init, variable, list, body } => aggregates(*init)
            || aggregates(*list) || aggregates(*body),
        _ => false,
    }
}

pub open spec fn opt_aggregates(o: Option<Box<ExprV>>) -> bool
    decreases o, 0nat,
{
    match o {
        Some(e) => aggregates(*e),
        None => false,
    }
}

/// Some expression from the `i`-th on aggregates.
pub open spec fn exprs_aggregate(es: Seq<ExprV>, i: int) -> bool
    decreases es, es.len() - i,
{
    if i < 0 || i >= es.len() {
        false
    } else {
        aggregates(es[i]) || exprs_aggregate(es, i + 1)
    }
}

/// Something in a literal aggregates.
pub open spec fn literal_aggregates(l: LitV) -> bool
    decreases l, 0nat,
{
    match l {
        LitV::List(items) => exprs_aggregate(items, 0),
        LitV::Dict(entries) => entries_aggregate(entries, 0),
        _ => false,
    }
}

/// Some entry of a map from the `i`-th on aggregates.
pub open spec fn entries_aggregate(es: Seq<(KeyV, ExprV)>, i: int) -> bool
    decreases es, es.len() - i,
{
    if i < 0 || i >= es.len() {
        false
    } else {
        key_aggregates(es[i].0) || aggregates(es[i].1) || entries_aggregate(es, i + 1)
    }
}

/// A computed key of a map aggregates.
pub open spec fn key_aggregates(k: KeyV) -> bool
    decreases k, 0nat,
{
    match k {
        KeyV::Identifier(_) => false,
        KeyV::Expression(e) => aggregates(*e),
    }
}

/// Some alternative from the `i`-th on aggregates.
pub open spec fn cases_aggregate(alternatives: Seq<CaseV>, i: int) -> bool
    decreases alternatives, alternatives.len() - i,
{
    if i < 0 || i >= alternatives.len() {
        false
    } else {
        aggregates(alternatives[i].when) || aggregates(alternatives[i].then_expr)
            || cases_aggregate(alternatives, i + 1)
    }
}

pub fn expr_contains_aggregation(expr: &Expression) -> (r: bool)
    ensures
        r == aggregates(expr@),
    decreases expr, 2nat,
{
    parts_contain_aggregation(expr)
}

fn parts_contain_aggregation(expr: &Expression) -> (r: bool)
    ensures
        r == parts_aggregate(expr@),
    decreases expr, 1nat,
{
    proof {
        assert(expr@ == expr.parts());
    }
    match expr {
        Expression::FunctionCall { name, distinct, args } => aggregate_name(
            lowercase(name.as_str()).as_str(),
        ) || some_contains_aggregation(args),
        Expression::Literal(l) => literal_contains_aggregation(l),
        Expression::BinaryOp { left, op, right } => expr_contains_aggregation(left)
            || expr_contains_aggregation(right),
        Expression::UnaryOp { op, operand } => expr_contains_aggregation(operand),
        Expression::And(l, r) => expr_contains_aggregation(l) || expr_contains_aggregation(r),
        Expression::Or(l, r) => expr_contains_aggregation(l) || expr_contains_aggregation(r),
        Expression::Xor(l, r) => expr_contains_aggregation(l) || expr_contains_aggregation(r),
        Expression::Not(x) => expr_contains_aggregation(x),
        Expression::IsNull(x) => expr_contains_aggregation(x),
        Expression::IsNotNull(x) => expr_contains_aggregation(x),
        Expression::Comparison { left, op, right } => expr_contains_aggregation(left)
            || expr_contains_aggregation(right),
        Expression::StringOp { left, op, right } => expr_contains_aggregation(left)
            || expr_contains_aggregation(right),
        Expression::Property(b, _) => expr_contains_aggregation(b),
        Expression::DynamicProperty { expr: e, key } => expr_contains_aggregation(e)
            || expr_contains_aggregation(key),
        Expression::ListSlice { expr: e, start, end } => expr_contains_aggregation(e)
            || opt_contains_aggregation(start) || opt_contains_aggregation(end),
        Expression::Case { operand, alternatives, default } => opt_contains_aggregation(operand)
            || cases_contain_aggregation(alternatives) || opt_contains_aggregation(default),
        Expression::RegexMatch { expr: e, pattern } => expr_contains_aggregation(e)
            || expr_contains_aggregation(pattern),
        Expression::In { expr: e, list } => expr_contains_aggregation(e)
            || expr_contains_aggregation(list),
        Expression::ListComprehension { variable, list, predicate, map_expr } =>
            expr_contains_aggregation(list) || opt_contains_aggregation(predicate)
                || opt_contains_aggregation(map_expr),
        Expression::FilterPredicate { kind, variable, list, predicate } =>
            expr_contains_aggregation(list) || expr_contains_aggregation(predicate),
        Expression::Reduce { accumulator, init, variable, list, body } =>
            expr_contains_aggregation(init) || expr_contains_aggregation(list)
                || expr_contains_aggregation(body),
        _ => false,
    }
}

fn opt_contains_aggregation(o: &Option<Box<Expression>>) -> (r: bool)
    ensures
        r == opt_aggregates(ast::opt_expr(*o)),
    decreases o, 0nat,
{
    match o {
        Some(e) => expr_contains_aggregation(e),
        None => false,
    }
}

fn some_contains_aggregation(es: &Vec<Expression>) -> (r: bool)
    ensures
        r == exprs_aggregate(ast::exprs_view(es@), 0),
    decreases es, 0nat,
{
    let mut i: usize = 0;
    while i < es.len()
        invariant
            i <= es.len(),
            exprs_aggregate(ast::exprs_view(es@), 0) == exprs_aggregate(
                ast::exprs_view(es@),
                i as int,
            ),
        decreases es.len() - i,
    {
        proof {
            assert(ast::exprs_view(es@)[i as int] == es@[i as int]@);
        }
        if expr_contains_aggregation(&es[i]) {
            return true;
        }
        i += 1;
    }
    false
}

fn literal_contains_aggregation(l: &Literal) -> (r: bool)
    ensures
        r == literal_aggregates(l@),
    decreases l, 0nat,
{
    match l {
        Literal::List(items) => some_contains_aggregation(items),
        Literal::MapValue(m) => entries_contain_aggregation(&m.entries),
        _ => false,
    }
}

fn entries_contain_aggregation(es: &Vec<(MapKey, Expression)>) -> (r: bool)
    ensures
        r == entries_aggregate(ast::entries_view(es@), 0),
    decreases es, 0nat,
{
    let mut i: usize = 0;
    while i < es.len()
        invariant
            i <= es.len(),
            entries_aggregate(ast::entries_view(es@), 0) == entries_aggregate(
                ast::entries_view(es@),
                i as int,
            ),
        decreases es.len() - i,
    {
        proof {
            assert(ast::entries_view(es@)[i as int] == (es@[i as int].0@, es@[i as int].1@));
        }
        if key_contains_aggregation(&es[i].0) || expr_contains_aggregation(&es[i].1) {
            return true;
        }
        i += 1;
    }
    false
}

fn key_contains_aggregation(k: &MapKey) -> (r: bool)
    ensures
        r == key_aggregates(k@),
    decreases k, 0nat,
{
    match k {
        MapKey::Identifier(_) => false,
        MapKey::Expression(e) => expr_contains_aggregation(e),
    }
}

fn cases_contain_aggregation(alternatives: &Vec<CaseAlternative>) -> (r: bool)
    ensures
        r == cases_aggregate(ast::cases_view(alternatives@), 0),
    decreases alternatives, 0nat,
{
    let mut i: usize = 0;
    while i < alternatives.len()
        invariant
            i <= alternatives.len(),
            cases_aggregate(ast::cases_view(alternatives@), 0) == cases_aggregate(
                ast::cases_view(alternatives@),
                i as int,
            ),
        decreases alternatives.len() - i,
    {
        proof {
            assert(ast::cases_view(alternatives@)[i as int].when == alternatives@[i as int].when@);
            assert(ast::cases_view(alternatives@)[i as int].then_expr
                == alternatives@[i as int].then_expr@);
        }
        if expr_contains_aggregation(&alternatives[i].when) || expr_contains_aggregation(
            &alternatives[i].then_expr,
        ) {
            return true;
        }
        i += 1;
    }
    false
}

/// Some item from the `i`-th on aggregates.
pub open spec fn some_aggregate(items: Seq<ItemV>, i: int) -> bool
    decreases items.len() - i,
{
    if i < 0 || i >= items.len() {
        false
    } else {
        aggregates(items[i].expression) || some_aggregate(items, i + 1)
    }
}

/// Whether some item aggregates.
pub fn items_contain_aggregation(items: &Vec<ReturnItem>) -> (r: bool)
    ensures
        r == some_aggregate(ast::items_view(items@), 0),
{
    let mut i: usize = 0;
    while i < items.len()
        invariant
            i <= items.len(),
            some_aggregate(ast::items_view(items@), 0) == some_aggregate(
                ast::items_view(items@),
                i as int,
            ),
        decreases items.len() - i,
    {
        if expr_contains_aggregation(&items[i].expression) {
            return true;
        }
        i += 1;
    }
    false
}

// ---------------------------------------------------------------------------
// Functions over a group
// ---------------------------------------------------------------------------

/// The values from the `i`-th on whose key was not seen before.
pub open spec fn distinct_values(
    vals: Seq<ValV>,
    i: int,
    seen: Seq<Seq<char>>,
    acc: Seq<ValV>,
) -> Seq<ValV>
    decreases vals.len() - i,
{
    if i < 0 || i >= vals.len() {
        acc
    } else if text::has_text(seen, keying::stable_key(vals[i])) {
        distinct_values(vals, i + 1, seen, acc)
    } else {
        distinct_values(
            vals,
            i + 1,
            seen.push(keying::stable_key(vals[i])),
            acc.push(vals[i]),
        )
    }
}

/// The view of a list of values or an error.
pub open spec fn values_outcome(r: Result<Vec<CypherValue>, CypherError>) -> Result<Seq<ValV>, ErrV> {
    match r {
        Ok(v) => Ok(value::vals_view(v@)),
        Err(e) => Err(e@),
    }
}

pub fn drop_repeated_values(vals: &Vec<CypherValue>) -> (r: Vec<CypherValue>)
    ensures
        value::vals_view(r@) == distinct_values(value::vals_view(vals@), 0, seq![], seq![]),
{
    let mut r: Vec<CypherValue> = Vec::new();
    let mut seen: Vec<String> = Vec::new();
    let mut i: usize = 0;
    proof {
        assert(value::vals_view(r@) =~= seq![]);
        assert(text::texts_view(seen@) =~= seq![]);
    }
    while i < vals.len()
        invariant
            i <= vals.len(),
            distinct_values(value::vals_view(vals@), 0, seq![], seq![]) == distinct_values(
                value::vals_view(vals@),
                i as int,
                text::texts_view(seen@),
                value::vals_view(r@),
            ),
        decreases vals.len() - i,
    {
        let k = cypher_value_to_stable_key(&vals[i]);
        if !list_has(&seen, k.as_str()) {
            let ghost s0 = text::texts_view(seen@);
            let ghost r0 = value::vals_view(r@);
            let v = vals[i].clone();
            proof {
                assert(text::texts_view(seen@.push(k)) =~= s0.push(k@));
                assert(value::vals_view(r@.push(v)) =~= r0.push(v@));
            }
            seen.push(k);
            r.push(v);
        }
        i += 1;
    }
    r
}

/// The numbers among values, in order, as floating-point values.
pub open spec fn numbers(vals: Seq<ValV>, i: int, acc: Seq<u64>) -> Seq<u64>
    decreases vals.len() - i,
{
    if i < 0 || i >= vals.len() {
        acc
    } else {
        match ops::float_of(vals[i]) {
            Some(x) => numbers(vals, i + 1, acc.push(x)),
            None => numbers(vals, i + 1, acc),
        }
    }
}

fn collect_numbers(vals: &Vec<CypherValue>) -> (r: Vec<u64>)
    ensures
        r@ == numbers(value::vals_view(vals@), 0, seq![]),
{
    let mut r: Vec<u64> = Vec::new();
    let mut i: usize = 0;
    while i < vals.len()
        invariant
            i <= vals.len(),
            numbers(value::vals_view(vals@), 0, seq![]) == numbers(
                value::vals_view(vals@),
                i as int,
                r@,
            ),
        decreases vals.len() - i,
    {
        if let Some(x) = to_f64(&vals[i]) {
            r.push(x);
        }
        i += 1;
    }
    r
}

/// All values from the `i`-th on are integers.
pub open spec fn all_integers(vals: Seq<ValV>, i: int) -> bool
    decreases vals.len() - i,
{
    if i < 0 || i >= vals.len() {
        true
    } else {
        vals[i] is Integer && all_integers(vals, i + 1)
    }
}

/// The sum of integers from the `i`-th on, `None` where it leaves the range on
/// the way.
pub open spec fn integer_sum(vals: Seq<ValV>, i: int, acc: int) -> Option<int>
    decreases vals.len() - i,
{
    if i < 0 || i >= vals.len() {
        Some(acc)
    } else {
        match vals[i] {
            ValV::Integer(n) => if i64::MIN <= acc + n <= i64::MAX {
                integer_sum(vals, i + 1, acc + n)
            } else {
                None
            },
            _ => integer_sum(vals, i + 1, acc),
        }
    }
}

/// `sum`: of integers an integer, else a floating-point number.
pub open spec fn sum_of(vals: Seq<ValV>, ans: AnswersV) -> EvalV {
    if all_integers(vals, 0) {
        match integer_sum(vals, 0, 0) {
            Some(n) => Ok(ValV::Integer(n as i64)),
            None => Err(ErrV::Runtime("Integer overflow in SUM"@)),
        }
    } else {
        ops::as_value(ops::number_for(ans, RequestV::Sum(numbers(vals, 0, seq![]))))
    }
}

fn sum_values<O: Outside>(vals: &Vec<CypherValue>, outside: &O) -> (r: Result<
    CypherValue,
    CypherError,
>)
    ensures
        outcome(r) == sum_of(value::vals_view(vals@), outside.answers()),
{
    let mut all_int = true;
    let mut i: usize = 0;
    while i < vals.len()
        invariant
            i <= vals.len(),
            all_integers(value::vals_view(vals@), 0) == (all_int && all_integers(
                value::vals_view(vals@),
                i as int,
            )),
        decreases vals.len() - i,
    {
        match &vals[i] {
            CypherValue::Integer(_) => {},
            _ => {
                all_int = false;
            },
        }
        i += 1;
    }
    if !all_int {
        return ask_value(outside, Request::Sum(collect_numbers(vals)));
    }
    let mut acc: i64 = 0;
    let mut j: usize = 0;
    while j < vals.len()
        invariant
            j <= vals.len(),
            all_integers(value::vals_view(vals@), 0),
            integer_sum(value::vals_view(vals@), 0, 0) == integer_sum(
                value::vals_view(vals@),
                j as int,
                acc as int,
            ),
        decreases vals.len() - j,
    {
        if let CypherValue::Integer(n) = &vals[j] {
            match acc.checked_add(*n) {
                Some(s) => {
                    acc = s;
                },
                None => {
                    return Err(CypherError::RuntimeError("Integer overflow in SUM".to_owned()));
                },
            }
        }
        j += 1;
    }
    Ok(CypherValue::Integer(acc))
}

/// `avg`: of the numbers among the values.
pub open spec fn avg_of(vals: Seq<ValV>, ans: AnswersV) -> EvalV {
    let xs = numbers(vals, 0, seq![]);
    if xs.len() == 0 {
        Ok(ValV::Null)
    } else {
        ops::as_value(ops::number_for(ans, RequestV::Mean(xs)))
    }
}

fn avg_values<O: Outside>(vals: &Vec<CypherValue>, outside: &O) -> (r: Result<
    CypherValue,
    CypherError,
>)
    ensures
        outcome(r) == avg_of(value::vals_view(vals@), outside.answers()),
{
    let xs = collect_numbers(vals);
    if xs.len() == 0 {
        Ok(CypherValue::Null)
    } else {
        ask_value(outside, Request::Mean(xs))
    }
}

/// `stdev` of a sample, `stdevp` of a population. A sample has at least two
/// numbers.
pub open spec fn stdev_of(vals: Seq<ValV>, sample: bool, ans: AnswersV) -> EvalV {
    let xs = numbers(vals, 0, seq![]);
    if xs.len() == 0 || (sample && xs.len() < 2) {
        Ok(ValV::Null)
    } else {
        ops::as_value(ops::number_for(ans, RequestV::Stdev(xs, sample)))
    }
}

fn stdev_values<O: Outside>(vals: &Vec<CypherValue>, sample: bool, outside: &O) -> (r: Result<
    CypherValue,
    CypherError,
>)
    ensures
        outcome(r) == stdev_of(value::vals_view(vals@), sample, outside.answers()),
{
    let xs = collect_numbers(vals);
    if xs.len() == 0 || (sample && xs.len() < 2) {
        Ok(CypherValue::Null)
    } else {
        ask_value(outside, Request::Stdev(xs, sample))
    }
}

/// The least of `best` and the values from the `i`-th on, the first of equal
/// ones.
pub open spec fn least(vals: Seq<ValV>, i: int, best: ValV) -> ValV
    decreases vals.len() - i,
{
    if i < 0 || i >= vals.len() {
        best
    } else if ops::value_order(best, vals[i]) == Some(Order::Greater) {
        least(vals, i + 1, vals[i])
    } else {
        least(vals, i + 1, best)
    }
}

/// The greatest of `best` and the values from the `i`-th on, the last of equal
/// ones.
pub open spec fn greatest(vals: Seq<ValV>, i: int, best: ValV) -> ValV
    decreases vals.len() - i,
{
    if i < 0 || i >= vals.len() {
        best
    } else if ops::value_order(best, vals[i]) == Some(Order::Greater) {
        greatest(vals, i + 1, best)
    } else {
        greatest(vals, i + 1, vals[i])
    }
}

pub open spec fn min_of(vals: Seq<ValV>) -> ValV {
    if vals.len() == 0 {
        ValV::Null
    } else {
        least(vals, 1, vals[0])
    }
}

pub open spec fn max_of(vals: Seq<ValV>) -> ValV {
    if vals.len() == 0 {
        ValV::Null
    } else {
        greatest(vals, 1, vals[0])
    }
}

/// One value must come after another.
pub open spec fn value_after() -> spec_fn(ValV, ValV) -> bool {
    |a: ValV, b: ValV| ops::value_order(a, b) == Some(Order::Greater)
}

pub fn value_is_after(a: &CypherValue, b: &CypherValue) -> (r: bool)
    ensures
        r == value_after()(a@, b@),
        r == (ops::value_order(a@, b@) == Some(Order::Greater)),
{
    match order_values(a, b) {
        Some(Order::Greater) => true,
        _ => false,
    }
}

fn min_value(vals: &Vec<CypherValue>) -> (r: CypherValue)
    ensures
        r@ == min_of(value::vals_view(vals@)),
{
    if vals.len() == 0 {
        return CypherValue::Null;
    }
    let mut best: usize = 0;
    let mut i: usize = 1;
    while i < vals.len()
        invariant
            best < vals.len(),
            1 <= i <= vals.len(),
            least(value::vals_view(vals@), 1, value::vals_view(vals@)[0]) == least(
                value::vals_view(vals@),
                i as int,
                value::vals_view(vals@)[best as int],
            ),
        decreases vals.len() - i,
    {
        if value_is_after(&vals[best], &vals[i]) {
            best = i;
        }
        i += 1;
    }
    vals[best].clone()
}

fn max_value(vals: &Vec<CypherValue>) -> (r: CypherValue)
    ensures
        r@ == max_of(value::vals_view(vals@)),
{
    if vals.len() == 0 {
        return CypherValue::Null;
    }
    let mut best: usize = 0;
    let mut i: usize = 1;
    while i < vals.len()
        invariant
            best < vals.len(),
            1 <= i <= vals.len(),
            greatest(value::vals_view(vals@), 1, value::vals_view(vals@)[0]) == greatest(
                value::vals_view(vals@),
                i as int,
                value::vals_view(vals@)[best as int],
            ),
        decreases vals.len() - i,
    {
        if !value_is_after(&vals[best], &vals[i]) {
            best = i;
        }
        i += 1;
    }
    vals[best].clone()
}

/// One number must come after another.
pub open spec fn float_after() -> spec_fn(u64, u64) -> bool {
    |a: u64, b: u64| number::float_order(a, b) == Some(Order::Greater)
}

fn float_is_after(a: u64, b: u64) -> (r: bool)
    ensures
        r == float_after()(a, b),
{
    match order_floats(a, b) {
        Some(Order::Greater) => true,
        _ => false,
    }
}

fn sort_floats(v: &Vec<u64>) -> (r: Vec<u64>)
    ensures
        r@ == arrange::arranged(v@, float_after()),
{
    let mut r: Vec<u64> = Vec::new();
    let mut i: usize = 0;
    proof {
        assert(r@ =~= v@.take(0));
    }
    while i < v.len()
        invariant
            i <= v.len(),
            r@ == arrange::arranged(v@.take(i as int), float_after()),
        decreases v.len() - i,
    {
        let x = v[i];
        let mut p: usize = r.len();
        while p > 0 && float_is_after(r[p - 1], x)
            invariant
                p <= r.len(),
                forall|j: int| p <= j < r.len() ==> float_after()(#[trigger] r@[j], x),
            decreases p,
        {
            p -= 1;
        }
        proof {
            arrange::lemma_placed(r@, x, float_after(), p as int);
            assert(v@.take(i as int + 1).drop_last() =~= v@.take(i as int));
        }
        r.insert(p, x);
        i += 1;
    }
    proof {
        assert(v@.take(v@.len() as int) =~= v@);
    }
    r
}

/// The values of a list, sorted.
pub fn sort_values(v: &Vec<CypherValue>) -> (r: Vec<CypherValue>)
    ensures
        value::vals_view(r@) == arrange::arranged(value::vals_view(v@), value_after()),
{
    let mut r: Vec<CypherValue> = Vec::new();
    let mut i: usize = 0;
    proof {
        assert(value::vals_view(r@) =~= value::vals_view(v@).take(0));
    }
    while i < v.len()
        invariant
            i <= v.len(),
            value::vals_view(r@) == arrange::arranged(
                value::vals_view(v@).take(i as int),
                value_after(),
            ),
        decreases v.len() - i,
    {
        let x = v[i].clone();
        let mut p: usize = r.len();
        while p > 0 && value_is_after(&r[p - 1], &x)
            invariant
                p <= r.len(),
                forall|j: int|
                    p <= j < r.len() ==> value_after()(#[trigger] value::vals_view(r@)[j], x@),
            decreases p,
        {
            p -= 1;
        }
        proof {
            let s = value::vals_view(v@);
            arrange::lemma_placed(value::vals_view(r@), x@, value_after(), p as int);
            assert(s.take(i as int + 1).drop_last() =~= s.take(i as int));
            assert(value::vals_view(r@.insert(p as int, x)) =~= value::vals_view(r@).insert(
                p as int,
                x@,
            ));
        }
        r.insert(p, x);
        i += 1;
    }
    proof {
        assert(value::vals_view(v@).take(v@.len() as int) =~= value::vals_view(v@));
    }
    r
}

/// The number one.
pub const ONE_BITS: u64 = 0x3ff0_0000_0000_0000;

/// A number is between zero and one.
pub open spec fn is_share(p: u64) -> bool {
    &&& number::float_order(0, p) is Some
    &&& number::float_order(0, p) != Some(Order::Greater)
    &&& number::float_order(p, ONE_BITS) is Some
    &&& number::float_order(p, ONE_BITS) != Some(Order::Greater)
}

fn share(p: u64) -> (r: bool)
    ensures
        r == is_share(p),
{
    (match order_floats(0, p) {
        Some(Order::Greater) => false,
        Some(_) => true,
        None => false,
    }) && (match order_floats(p, ONE_BITS) {
        Some(Order::Greater) => false,
        Some(_) => true,
        None => false,
    })
}

/// `percentileCont`: interpolated between the numbers among the values.
pub open spec fn percentile_cont_of(vals: Seq<ValV>, p: u64, ans: AnswersV) -> EvalV {
    let xs = numbers(vals, 0, seq![]);
    if !is_share(p) || xs.len() == 0 {
        Ok(ValV::Null)
    } else {
        ops::as_value(
            ops::number_for(
                ans,
                RequestV::PercentileCont(arrange::arranged(xs, float_after()), p),
            ),
        )
    }
}

pub fn percentile_cont<O: Outside>(vals: &Vec<CypherValue>, p: u64, outside: &O) -> (r: Result<
    CypherValue,
    CypherError,
>)
    ensures
        outcome(r) == percentile_cont_of(value::vals_view(vals@), p, outside.answers()),
{
    let xs = collect_numbers(vals);
    if !share(p) || xs.len() == 0 {
        Ok(CypherValue::Null)
    } else {
        ask_value(outside, Request::PercentileCont(sort_floats(&xs), p))
    }
}

/// The index that answers a request; pending where no index does.
pub open spec fn index_for(ans: AnswersV, p: u64, n: u64) -> Result<u64, ErrV> {
    match ans(RequestV::PercentileIndex(p, n)) {
        Some(AnswerV::Index(i)) => Ok(i),
        _ => Err(ErrV::Pending(RequestV::PercentileIndex(p, n))),
    }
}

/// `percentileDisc`: one of the values.
pub open spec fn percentile_disc_of(vals: Seq<ValV>, p: u64, ans: AnswersV) -> EvalV {
    if !is_share(p) || vals.len() == 0 {
        Ok(ValV::Null)
    } else {
        match index_for(ans, p, (vals.len() - 1) as u64) {
            Err(x) => Err(x),
            Ok(i) => Ok(
                arrange::arranged(vals, value_after())[if i < vals.len() {
                    i as int
                } else {
                    vals.len() - 1
                }],
            ),
        }
    }
}

pub fn percentile_disc<O: Outside>(vals: &Vec<CypherValue>, p: u64, outside: &O) -> (r: Result<
    CypherValue,
    CypherError,
>)
    ensures
        outcome(r) == percentile_disc_of(value::vals_view(vals@), p, outside.answers()),
{
    if !share(p) || vals.len() == 0 {
        return Ok(CypherValue::Null);
    }
    let request = Request::PercentileIndex(p, (vals.len() - 1) as u64);
    match outside.answer(&request) {
        Some(Answer::Index(i)) => {
            let sorted = sort_values(vals);
            proof {
                arrange::lemma_arranged_same_items(value::vals_view(vals@), value_after());
            }
            let at = if i < vals.len() as u64 {
                i as usize
            } else {
                vals.len() - 1
            };
            Ok(sorted[at].clone())
        },
        _ => Err(CypherError::Pending(request)),
    }
}

/// The value of a function over a group, in lower case, on the values of its
/// first argument.
pub open spec fn group_function(name: Seq<char>, vals: Seq<ValV>, ans: AnswersV) -> EvalV {
    if name == "count"@ {
        Ok(ValV::Integer(vals.len() as i64))
    } else if name == "sum"@ {
        sum_of(vals, ans)
    } else if name == "avg"@ {
        avg_of(vals, ans)
    } else if name == "min"@ {
        Ok(min_of(vals))
    } else if name == "max"@ {
        Ok(max_of(vals))
    } else if name == "collect"@ {
        Ok(ValV::List(vals))
    } else if name == "stdev"@ {
        stdev_of(vals, true, ans)
    } else if name == "stdevp"@ {
        stdev_of(vals, false, ans)
    } else {
        Ok(ValV::Null)
    }
}

/// The value of a function over a group, in lower case, without arguments.
pub open spec fn bare_group_function(name: Seq<char>, rows: nat) -> ValV {
    if name == "count"@ {
        ValV::Integer(rows as i64)
    } else if name == "sum"@ {
        ValV::Integer(0)
    } else if name == "collect"@ {
        ValV::List(seq![])
    } else {
        ValV::Null
    }
}

pub fn compute_group_function<O: Outside>(name: &str, vals: Vec<CypherValue>, outside: &O) -> (r: Result<
    CypherValue,
    CypherError,
>)
    ensures
        outcome(r) == group_function(name@, value::vals_view(vals@), outside.answers()),
{
    if same_text(name, "count") {
        Ok(CypherValue::Integer(vals.len() as i64))
    } else if same_text(name, "sum") {
        sum_values(&vals, outside)
    } else if same_text(name, "avg") {
        avg_values(&vals, outside)
    } else if same_text(name, "min") {
        Ok(min_value(&vals))
    } else if same_text(name, "max") {
        Ok(max_value(&vals))
    } else if same_text(name, "collect") {
        Ok(CypherValue::List(vals))
    } else if same_text(name, "stdev") {
        stdev_values(&vals, true, outside)
    } else if same_text(name, "stdevp") {
        stdev_values(&vals, false, outside)
    } else {
        Ok(CypherValue::Null)
    }
}

pub fn compute_bare_function(name: &str, rows: usize) -> (r: CypherValue)
    ensures
        r@ == bare_group_function(name@, rows as nat),
{
    if same_text(name, "count") {
        CypherValue::Integer(rows as i64)
    } else if same_text(name, "sum") {
        CypherValue::Integer(0)
    } else if same_text(name, "collect") {
        let none: Vec<CypherValue> = Vec::new();
        proof {
            assert(value::vals_view(none@) =~= seq![]);
        }
        CypherValue::List(none)
    } else {
        CypherValue::Null
    }
}

/// A percentile of values, by the value of the second argument.
pub open spec fn percentile_of(name: Seq<char>, vals: Seq<ValV>, p: ValV, ans: AnswersV) -> EvalV {
    match ops::float_of(p) {
        None => Ok(ValV::Null),
        Some(x) => if name == "percentilecont"@ {
            percentile_cont_of(vals, x, ans)
        } else {
            percentile_disc_of(vals, x, ans)
        },
    }
}

/// The function ignores `DISTINCT`.
pub open spec fn takes_all(name: Seq<char>) -> bool {
    name == "min"@ || name == "max"@ || name == "percentilecont"@ || name == "percentiledisc"@
}

/// The value of an aggregating item over the rows of a group: the functions
/// over groups in it work on all of the rows, and what stands around them is
/// evaluated on the first row.
pub open spec fn aggregate(e: ExprV, rows: Seq<RecV>, env: EnvV, st: StoreV) -> EvalV {
    semantics::eval(
        e,
        if rows.len() > 0 {
            rows[0]
        } else {
            seq![]
        },
        env.over(rows),
        st,
    )
}

/// Computes an aggregating item over the rows of a group.
pub fn compute_aggregate<S: StorageBackend, O: Outside>(
    expr: &Expression,
    rows: &Vec<Record>,
    ctx: &Ctx<O>,
    storage: &S,
) -> (r: Result<CypherValue, CypherError>)
    requires
        storage.valid(),
    ensures
        outcome(r) == aggregate(expr@, value::recs_view(rows@), ctx.env(), storage.store()),
{
    let inner = ctx.over(rows);
    if rows.len() > 0 {
        eval_with_params(expr, &rows[0], &inner, storage)
    } else {
        let empty = Record::new();
        eval_with_params(expr, &empty, &inner, storage)
    }
}

// ---------------------------------------------------------------------------
// Groups
// ---------------------------------------------------------------------------

/// The rows with the same values of the items that do not aggregate.
pub struct GroupV {
    pub key: Seq<char>,
    pub values: Seq<ValV>,
    pub rows: Seq<RecV>,
}

struct Group {
    key: String,
    values: Vec<CypherValue>,
    rows: Vec<Record>,
}

impl Group {
    spec fn view(&self) -> GroupV {
        GroupV {
            key: self.key@,
            values: value::vals_view(self.values@),
            rows: value::recs_view(self.rows@),
        }
    }
}

spec fn groups_view(s: Seq<Group>) -> Seq<GroupV> {
    Seq::new(s.len(), |i: int| s[i].view())
}

/// The values on a row of the items from the `i`-th on that do not aggregate.
pub open spec fn group_key(
    items: Seq<ItemV>,
    i: int,
    acc: Seq<ValV>,
    rec: RecV,
    env: EnvV,
    st: StoreV,
) -> Result<Seq<ValV>, ErrV>
    decreases items.len() - i,
{
    if i < 0 || i >= items.len() {
        Ok(acc)
    } else if aggregates(items[i].expression) {
        group_key(items, i + 1, acc, rec, env, st)
    } else {
        match semantics::eval(items[i].expression, rec, env.at(i), st) {
            Err(x) => Err(x),
            Ok(v) => group_key(items, i + 1, acc.push(v), rec, env, st),
        }
    }
}

/// Where the group with a key is, from the `i`-th on.
pub open spec fn group_position(groups: Seq<GroupV>, key: Seq<char>, i: int) -> Option<int>
    decreases groups.len() - i,
{
    if i < 0 || i >= groups.len() {
        None
    } else if groups[i].key == key {
        Some(i)
    } else {
        group_position(groups, key, i + 1)
    }
}

/// The groups with a row put into the one with its key, or into a new one.
pub open spec fn with_row(groups: Seq<GroupV>, values: Seq<ValV>, rec: RecV) -> Seq<GroupV> {
    let key = keying::row_key(values);
    match group_position(groups, key, 0) {
        Some(p) => groups.update(p, GroupV { rows: groups[p].rows.push(rec), ..groups[p] }),
        None => groups.push(GroupV { key, values, rows: seq![rec] }),
    }
}

/// The groups with the rows from the `i`-th on put into them.
pub open spec fn grouped(
    items: Seq<ItemV>,
    rows: Seq<RecV>,
    i: int,
    groups: Seq<GroupV>,
    env: EnvV,
    st: StoreV,
) -> Result<Seq<GroupV>, ErrV>
    decreases rows.len() - i,
{
    if i < 0 || i >= rows.len() {
        Ok(groups)
    } else {
        match group_key(items, 0, seq![], rows[i], env.at(i), st) {
            Err(x) => Err(x),
            Ok(values) => grouped(items, rows, i + 1, with_row(groups, values, rows[i]), env, st),
        }
    }
}

/// All items from the `i`-th on aggregate.
pub open spec fn all_aggregate(items: Seq<ItemV>, i: int) -> bool
    decreases items.len() - i,
{
    if i < 0 || i >= items.len() {
        true
    } else {
        aggregates(items[i].expression) && all_aggregate(items, i + 1)
    }
}

/// The groups of all rows. Without rows there is one group where all items
/// aggregate, so that the count of nothing is a row with zero.
pub open spec fn groups_of(items: Seq<ItemV>, rows: Seq<RecV>, env: EnvV, st: StoreV) -> Result<
    Seq<GroupV>,
    ErrV,
> {
    if rows.len() == 0 && all_aggregate(items, 0) {
        Ok(seq![GroupV { key: keying::row_key(seq![]), values: seq![], rows: seq![] }])
    } else {
        grouped(items, rows, 0, seq![], env, st)
    }
}

/// A row with the columns of the items that do not aggregate, from the `i`-th
/// item on and with the values from the `pos`-th on.
pub open spec fn key_columns(
    items: Seq<ItemV>,
    cols: Seq<Seq<char>>,
    i: int,
    values: Seq<ValV>,
    pos: int,
    acc: RecV,
) -> RecV
    decreases items.len() - i,
{
    if i < 0 || i >= items.len() {
        acc
    } else if aggregates(items[i].expression) {
        key_columns(items, cols, i + 1, values, pos, acc)
    } else {
        key_columns(items, cols, i + 1, values, pos + 1, assoc::bind(acc, cols[i], values[pos]))
    }
}

/// A row with the columns of the items from the `i`-th on that aggregate.
pub open spec fn aggregate_columns(
    items: Seq<ItemV>,
    cols: Seq<Seq<char>>,
    i: int,
    rows: Seq<RecV>,
    acc: RecV,
    env: EnvV,
    st: StoreV,
) -> Result<RecV, ErrV>
    decreases items.len() - i,
{
    if i < 0 || i >= items.len() {
        Ok(acc)
    } else if aggregates(items[i].expression) {
        match aggregate(items[i].expression, rows, env.at(i), st) {
            Err(x) => Err(x),
            Ok(v) => aggregate_columns(
                items,
                cols,
                i + 1,
                rows,
                assoc::bind(acc, cols[i], v),
                env,
                st,
            ),
        }
    } else {
        aggregate_columns(items, cols, i + 1, rows, acc, env, st)
    }
}

/// One row for each group from the `g`-th on.
pub open spec fn group_rows(
    items: Seq<ItemV>,
    cols: Seq<Seq<char>>,
    groups: Seq<GroupV>,
    g: int,
    acc: Seq<RecV>,
    env: EnvV,
    st: StoreV,
) -> Result<Seq<RecV>, ErrV>
    decreases groups.len() - g,
{
    if g < 0 || g >= groups.len() {
        Ok(acc)
    } else {
        match aggregate_columns(
            items,
            cols,
            0,
            groups[g].rows,
            key_columns(items, cols, 0, groups[g].values, 0, seq![]),
            env.at(g),
            st,
        ) {
            Err(x) => Err(x),
            Ok(rec) => group_rows(items, cols, groups, g + 1, acc.push(rec), env, st),
        }
    }
}

/// The rows that an aggregating projection gives.
pub open spec fn aggregation(
    items: Seq<ItemV>,
    rows: Seq<RecV>,
    cols: Seq<Seq<char>>,
    env: EnvV,
    st: StoreV,
) -> Result<Seq<RecV>, ErrV> {
    match groups_of(items, rows, env.at(0), st) {
        Err(x) => Err(x),
        Ok(groups) => group_rows(items, cols, groups, 0, seq![], env.at(1), st),
    }
}

/// How many items from the `i`-th on do not aggregate.
pub open spec fn key_count(items: Seq<ItemV>, i: int) -> nat
    decreases items.len() - i,
{
    if i < 0 || i >= items.len() {
        0
    } else if aggregates(items[i].expression) {
        key_count(items, i + 1)
    } else {
        key_count(items, i + 1) + 1
    }
}

proof fn lemma_group_key_len(
    items: Seq<ItemV>,
    i: int,
    acc: Seq<ValV>,
    rec: RecV,
    env: EnvV,
    st: StoreV,
)
    requires
        0 <= i <= items.len(),
        group_key(items, i, acc, rec, env, st) is Ok,
    ensures
        group_key(items, i, acc, rec, env, st)->Ok_0.len() == acc.len() + key_count(items, i),
    decreases items.len() - i,
{
    if i < items.len() {
        if aggregates(items[i].expression) {
            lemma_group_key_len(items, i + 1, acc, rec, env, st);
        } else {
            let v = semantics::eval(items[i].expression, rec, env.at(i), st)->Ok_0;
            lemma_group_key_len(items, i + 1, acc.push(v), rec, env, st);
        }
    }
}

proof fn lemma_no_keys(items: Seq<ItemV>, i: int)
    requires
        all_aggregate(items, i),
    ensures
        key_count(items, i) == 0,
    decreases items.len() - i,
{
    if 0 <= i < items.len() {
        lemma_no_keys(items, i + 1);
    }
}

fn eval_group_key<S: StorageBackend, O: Outside>(
    items: &Vec<ReturnItem>,
    rec: &Record,
    ctx: &Ctx<O>,
    storage: &S,
) -> (r: Result<Vec<CypherValue>, CypherError>)
    requires
        storage.valid(),
    ensures
        values_outcome(r) == group_key(
            ast::items_view(items@),
            0,
            seq![],
            rec@,
            ctx.env(),
            storage.store(),
        ),
{
    let mut vals: Vec<CypherValue> = Vec::new();
    let mut i: usize = 0;
    proof {
        assert(value::vals_view(vals@) =~= seq![]);
    }
    while i < items.len()
        invariant
            storage.valid(),
            i <= items.len(),
            group_key(ast::items_view(items@), 0, seq![], rec@, ctx.env(), storage.store())
                == group_key(
                ast::items_view(items@),
                i as int,
                value::vals_view(vals@),
                rec@,
                ctx.env(),
                storage.store(),
            ),
        decreases items.len() - i,
    {
        if !expr_contains_aggregation(&items[i].expression) {
            let v = eval_with_params(&items[i].expression, rec, &ctx.at(i), storage)?;
            proof {
                assert(value::vals_view(vals@.push(v)) =~= value::vals_view(vals@).push(v@));
            }
            vals.push(v);
        }
        i += 1;
    }
    Ok(vals)
}

fn put_row(groups: &mut Vec<Group>, values: Vec<CypherValue>, rec: Record)
    ensures
        groups_view(final(groups)@) == with_row(
            groups_view(old(groups)@),
            value::vals_view(values@),
            rec@,
        ),
{
    let key = values_key(&values);
    let ghost before = groups_view(groups@);
    let mut i: usize = 0;
    while i < groups.len()
        invariant
            i <= groups.len(),
            before == groups_view(groups@),
            groups@ == old(groups)@,
            group_position(before, key@, 0) == group_position(before, key@, i as int),
            key@ == keying::row_key(value::vals_view(values@)),
        decreases groups.len() - i,
    {
        if same_text(groups[i].key.as_str(), key.as_str()) {
            let ghost g = groups@[i as int];
            groups[i].rows.push(rec);
            proof {
                assert(value::recs_view(groups@[i as int].rows@) =~= value::recs_view(
                    g.rows@,
                ).push(rec@));
                assert(groups_view(groups@) =~= before.update(
                    i as int,
                    GroupV { rows: before[i as int].rows.push(rec@), ..before[i as int] },
                ));
            }
            return;
        }
        i += 1;
    }
    let mut rows: Vec<Record> = Vec::new();
    rows.push(rec);
    proof {
        assert(value::recs_view(rows@) =~= seq![rec@]);
    }
    let g = Group { key, values, rows };
    proof {
        assert(groups_view(groups@.push(g)) =~= before.push(g.view()));
    }
    groups.push(g);
}

/// Every group has one value for each item that does not aggregate.
spec fn keyed(groups: Seq<GroupV>, n: nat) -> bool {
    forall|g: int| 0 <= g < groups.len() ==> (#[trigger] groups[g]).values.len() == n
}

proof fn lemma_with_row_keyed(groups: Seq<GroupV>, values: Seq<ValV>, rec: RecV)
    requires
        keyed(groups, values.len()),
    ensures
        keyed(with_row(groups, values, rec), values.len()),
{
    lemma_group_position(groups, keying::row_key(values), 0);
}

proof fn lemma_group_position(groups: Seq<GroupV>, key: Seq<char>, i: int)
    requires
        0 <= i,
    ensures
        group_position(groups, key, i) matches Some(p) ==> i <= p < groups.len(),
    decreases groups.len() - i,
{
    if i < groups.len() {
        lemma_group_position(groups, key, i + 1);
    }
}

fn collect_groups<S: StorageBackend, O: Outside>(
    items: &Vec<ReturnItem>,
    rows: &Vec<Record>,
    ctx: &Ctx<O>,
    storage: &S,
) -> (r: Result<Vec<Group>, CypherError>)
    requires
        storage.valid(),
    ensures
        match r {
            Ok(groups) => grouped(
                ast::items_view(items@),
                value::recs_view(rows@),
                0,
                seq![],
                ctx.env(),
                storage.store(),
            ) == Ok::<Seq<GroupV>, ErrV>(groups_view(groups@)) && keyed(
                groups_view(groups@),
                key_count(ast::items_view(items@), 0),
            ),
            Err(e) => grouped(
                ast::items_view(items@),
                value::recs_view(rows@),
                0,
                seq![],
                ctx.env(),
                storage.store(),
            ) == Err::<Seq<GroupV>, ErrV>(e@),
        },
{
    let mut groups: Vec<Group> = Vec::new();
    let mut i: usize = 0;
    proof {
        assert(groups_view(groups@) =~= seq![]);
    }
    while i < rows.len()
        invariant
            storage.valid(),
            i <= rows.len(),
            keyed(groups_view(groups@), key_count(ast::items_view(items@), 0)),
            grouped(
                ast::items_view(items@),
                value::recs_view(rows@),
                0,
                seq![],
                ctx.env(),
                storage.store(),
            ) == grouped(
                ast::items_view(items@),
                value::recs_view(rows@),
                i as int,
                groups_view(groups@),
                ctx.env(),
                storage.store(),
            ),
        decreases rows.len() - i,
    {
        let values = eval_group_key(items, &rows[i], &ctx.at(i), storage)?;
        proof {
            lemma_group_key_len(
                ast::items_view(items@),
                0,
                seq![],
                rows@[i as int]@,
                ctx.env().at(i as int),
                storage.store(),
            );
            lemma_with_row_keyed(
                groups_view(groups@),
                value::vals_view(values@),
                rows@[i as int]@,
            );
        }
        put_row(&mut groups, values, rows[i].clone());
        i += 1;
    }
    Ok(groups)
}

fn all_items_aggregate(items: &Vec<ReturnItem>) -> (r: bool)
    ensures
        r == all_aggregate(ast::items_view(items@), 0),
{
    let mut i: usize = 0;
    while i < items.len()
        invariant
            i <= items.len(),
            all_aggregate(ast::items_view(items@), 0) == all_aggregate(
                ast::items_view(items@),
                i as int,
            ),
        decreases items.len() - i,
    {
        if !expr_contains_aggregation(&items[i].expression) {
            return false;
        }
        i += 1;
    }
    true
}

fn bind_key_columns(items: &Vec<ReturnItem>, cols: &Vec<String>, values: &Vec<CypherValue>) -> (r:
    Record)
    requires
        cols.len() == items.len(),
        values.len() == key_count(ast::items_view(items@), 0),
    ensures
        r@ == key_columns(
            ast::items_view(items@),
            text::texts_view(cols@),
            0,
            value::vals_view(values@),
            0,
            seq![],
        ),
{
    let mut rec = Record::new();
    let mut i: usize = 0;
    let mut pos: usize = 0;
    while i < items.len()
        invariant
            i <= items.len(),
            cols.len() == items.len(),
            pos + key_count(ast::items_view(items@), i as int) == values.len(),
            key_columns(
                ast::items_view(items@),
                text::texts_view(cols@),
                0,
                value::vals_view(values@),
                0,
                seq![],
            ) == key_columns(
                ast::items_view(items@),
                text::texts_view(cols@),
                i as int,
                value::vals_view(values@),
                pos as int,
                rec@,
            ),
        decreases items.len() - i,
    {
        if !expr_contains_aggregation(&items[i].expression) {
            rec.insert(cols[i].clone(), values[pos].clone());
            pos += 1;
        }
        i += 1;
    }
    rec
}

/// The view of a row or an error.
pub open spec fn rec_outcome(r: Result<Record, CypherError>) -> Result<RecV, ErrV> {
    match r {
        Ok(v) => Ok(v@),
        Err(e) => Err(e@),
    }
}

fn bind_aggregates<S: StorageBackend, O: Outside>(
    items: &Vec<ReturnItem>,
    cols: &Vec<String>,
    rows: &Vec<Record>,
    start: Record,
    ctx: &Ctx<O>,
    storage: &S,
) -> (r: Result<Record, CypherError>)
    requires
        storage.valid(),
        cols.len() == items.len(),
    ensures
        rec_outcome(r) == aggregate_columns(
            ast::items_view(items@),
            text::texts_view(cols@),
            0,
            value::recs_view(rows@),
            start@,
            ctx.env(),
            storage.store(),
        ),
{
    let ghost first = start@;
    let mut rec = start;
    let mut i: usize = 0;
    while i < items.len()
        invariant
            storage.valid(),
            first == start@,
            i <= items.len(),
            cols.len() == items.len(),
            aggregate_columns(
                ast::items_view(items@),
                text::texts_view(cols@),
                0,
                value::recs_view(rows@),
                first,
                ctx.env(),
                storage.store(),
            ) == aggregate_columns(
                ast::items_view(items@),
                text::texts_view(cols@),
                i as int,
                value::recs_view(rows@),
                rec@,
                ctx.env(),
                storage.store(),
            ),
        decreases items.len() - i,
    {
        if expr_contains_aggregation(&items[i].expression) {
            let v = compute_aggregate(&items[i].expression, rows, &ctx.at(i), storage)?;
            rec.insert(cols[i].clone(), v);
        }
        i += 1;
    }
    Ok(rec)
}

/// The view of rows or an error.
pub open spec fn recs_outcome(r: Result<Vec<Record>, CypherError>) -> Result<Seq<RecV>, ErrV> {
    match r {
        Ok(v) => Ok(value::recs_view(v@)),
        Err(e) => Err(e@),
    }
}

/// The rows of an aggregating projection: items that do not aggregate form
/// the groups, the others are computed over each group.
pub fn execute_aggregation<S: StorageBackend, O: Outside>(
    items: &Vec<ReturnItem>,
    rows: &Vec<Record>,
    cols: &Vec<String>,
    ctx: &Ctx<O>,
    storage: &S,
) -> (r: Result<Vec<Record>, CypherError>)
    requires
        storage.valid(),
        cols.len() == items.len(),
    ensures
        recs_outcome(r) == aggregation(
            ast::items_view(items@),
            value::recs_view(rows@),
            text::texts_view(cols@),
            ctx.env(),
            storage.store(),
        ),
{
    let mut groups = collect_groups(items, rows, &ctx.at(0), storage)?;
    if rows.len() == 0 && all_items_aggregate(items) {
        let values: Vec<CypherValue> = Vec::new();
        let none: Vec<Record> = Vec::new();
        let g = Group { key: values_key(&values), values, rows: none };
        proof {
            lemma_no_keys(ast::items_view(items@), 0);
            assert(value::vals_view(values@) =~= seq![]);
            assert(value::recs_view(none@) =~= seq![]);
            assert(groups_view(groups@) =~= seq![]);
            assert(groups_view(groups@.push(g)) =~= seq![g.view()]);
        }
        groups.push(g);
    }
    let here = ctx.at(1);
    let ghost gs = groups_view(groups@);
    let mut out: Vec<Record> = Vec::new();
    let mut i: usize = 0;
    proof {
        assert(value::recs_view(out@) =~= seq![]);
    }
    while i < groups.len()
        invariant
            storage.valid(),
            cols.len() == items.len(),
            here.env() == ctx.env().at(1),
            gs == groups_view(groups@),
            groups_of(
                ast::items_view(items@),
                value::recs_view(rows@),
                ctx.env().at(0),
                storage.store(),
            ) == Ok::<Seq<GroupV>, ErrV>(gs),
            keyed(gs, key_count(ast::items_view(items@), 0)),
            i <= groups.len(),
            group_rows(
                ast::items_view(items@),
                text::texts_view(cols@),
                gs,
                0,
                seq![],
                here.env(),
                storage.store(),
            ) == group_rows(
                ast::items_view(items@),
                text::texts_view(cols@),
                gs,
                i as int,
                value::recs_view(out@),
                here.env(),
                storage.store(),
            ),
        decreases groups.len() - i,
    {
        proof {
            assert(gs[i as int].values.len() == key_count(ast::items_view(items@), 0));
        }
        let start = bind_key_columns(items, cols, &groups[i].values);
        let rec = bind_aggregates(items, cols, &groups[i].rows, start, &here.at(i), storage)?;
        proof {
            assert(value::recs_view(out@.push(rec)) =~= value::recs_view(out@).push(rec@));
        }
        out.push(rec);
        i += 1;
    }
    Ok(out)
}

} // verus!
