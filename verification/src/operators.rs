//! What the operators of expressions give for the values of their operands.
use crate::assoc;
use crate::ast::{BinaryOp, CompOp, ExprV, StringMatchOp, UnaryOp};
use crate::changes;
use crate::error::ErrV;
use crate::ops::{self, EvalV};
use crate::semantics::{self, EnvV};
use crate::store::StoreV;
use crate::text::{self, Order};
use crate::value::{PropsV, RecV, ValV};
use vstd::prelude::*;

verus! {

/// The value of an expression, whatever random numbers are drawn.
pub open spec fn means(e: ExprV, v: ValV, rec: RecV, env: EnvV, st: StoreV) -> bool {
    forall|seed: u64| #[trigger]
        semantics::eval(e, rec, (EnvV { seed, ..env }), st) == Ok::<ValV, ErrV>(v)
}

/// Two operands have values.
pub open spec fn both_mean(
    l: ExprV,
    a: ValV,
    r: ExprV,
    b: ValV,
    rec: RecV,
    env: EnvV,
    st: StoreV,
) -> bool {
    means(l, a, rec, env, st) && means(r, b, rec, env, st)
}

pub proof fn lemma_means(e: ExprV, v: ValV, rec: RecV, env: EnvV, st: StoreV, k: int)
    requires
        means(e, v, rec, env, st),
    ensures
        semantics::eval(e, rec, env.at(k), st) == Ok::<ValV, ErrV>(v),
        semantics::eval(e, rec, env, st) == Ok::<ValV, ErrV>(v),
        means(e, v, rec, env.at(k), st),
{
    let d = env.at(k);
    assert(d == EnvV { seed: d.seed, ..env });
    assert(env == EnvV { seed: env.seed, ..env });
    assert forall|seed: u64| #[trigger]
        semantics::eval(e, rec, (EnvV { seed, ..d }), st) == Ok::<ValV, ErrV>(v) by {
        assert(EnvV { seed, ..d } == EnvV { seed, ..env });
    }
}

proof fn lemma_operands(
    l: ExprV,
    a: ValV,
    r: ExprV,
    b: ValV,
    rec: RecV,
    env: EnvV,
    st: StoreV,
)
    requires
        both_mean(l, a, r, b, rec, env, st),
    ensures
        semantics::eval(l, rec, env.at(0), st) == Ok::<ValV, ErrV>(a),
        semantics::eval(r, rec, env.at(1), st) == Ok::<ValV, ErrV>(b),
{
    lemma_means(l, a, rec, env, st, 0);
    lemma_means(r, b, rec, env, st, 1);
}

// ---------------------------------------------------------------------------
// Comparisons
// ---------------------------------------------------------------------------

pub open spec fn compared(l: ExprV, op: CompOp, r: ExprV, rec: RecV, env: EnvV, st: StoreV) -> EvalV {
    semantics::eval(
        ExprV::Comparison { left: Box::new(l), op, right: Box::new(r) },
        rec,
        env,
        st,
    )
}

pub open spec fn is_true(r: EvalV) -> bool {
    r == Ok::<ValV, ErrV>(ValV::Boolean(true))
}

pub open spec fn is_false(r: EvalV) -> bool {
    r == Ok::<ValV, ErrV>(ValV::Boolean(false))
}

pub open spec fn is_null(r: EvalV) -> bool {
    r == Ok::<ValV, ErrV>(ValV::Null)
}

/// What an operator says of two numbers.
pub open spec fn holds(op: CompOp, a: int, b: int) -> bool {
    match op {
        CompOp::Eq => a == b,
        CompOp::Neq => a != b,
        CompOp::Lt => a < b,
        CompOp::Gt => a > b,
        CompOp::Lte => a <= b,
        CompOp::Gte => a >= b,
    }
}

/// Whole numbers are compared as numbers, and truth values as 0 and 1.
pub proof fn lemma_compare_integers(
    l: ExprV,
    op: CompOp,
    r: ExprV,
    a: ValV,
    b: ValV,
    rec: RecV,
    env: EnvV,
    st: StoreV,
)
    requires
        both_mean(l, a, r, b, rec, env, st),
    ensures
        a is Integer && b is Integer ==> compared(l, op, r, rec, env, st) == Ok::<ValV, ErrV>(
            ValV::Boolean(holds(op, a->Integer_0 as int, b->Integer_0 as int)),
        ),
        a is Boolean && b is Boolean ==> compared(l, op, r, rec, env, st) == Ok::<ValV, ErrV>(
            ValV::Boolean(
                holds(
                    op,
                    if a->Boolean_0 {
                        1
                    } else {
                        0
                    },
                    if b->Boolean_0 {
                        1
                    } else {
                        0
                    },
                ),
            ),
        ),
{
    lemma_operands(l, a, r, b, rec, env, st);
    reveal_with_fuel(semantics::eval, 2);
    reveal(ops::comparison);
    reveal(ops::value_order);
}

/// One text comes before another: it is its beginning, or has the smaller
/// character where they first differ.
pub open spec fn before(s: Seq<char>, t: Seq<char>) -> bool {
    exists|k: int| #[trigger] first_difference(s, t, k) && (k == s.len() || s[k] < t[k])
}

pub open spec fn first_difference(s: Seq<char>, t: Seq<char>, k: int) -> bool {
    &&& 0 <= k <= s.len()
    &&& k < t.len()
    &&& forall|i: int| 0 <= i < k ==> #[trigger] s[i] == t[i]
    &&& k < s.len() ==> s[k] != t[k]
}

/// Texts are compared character by character.
pub proof fn lemma_compare_texts(
    l: ExprV,
    op: CompOp,
    r: ExprV,
    s: Seq<char>,
    t: Seq<char>,
    rec: RecV,
    env: EnvV,
    st: StoreV,
)
    requires
        both_mean(l, ValV::Str(s), r, ValV::Str(t), rec, env, st),
    ensures
        compared(l, op, r, rec, env, st) == Ok::<ValV, ErrV>(
            ValV::Boolean(
                match op {
                    CompOp::Eq => s == t,
                    CompOp::Neq => s != t,
                    CompOp::Lt => before(s, t),
                    CompOp::Gt => before(t, s),
                    CompOp::Lte => before(s, t) || s == t,
                    CompOp::Gte => before(t, s) || s == t,
                },
            ),
        ),
{
    lemma_operands(l, ValV::Str(s), r, ValV::Str(t), rec, env, st);
    reveal_with_fuel(semantics::eval, 2);
    reveal(ops::comparison);
    reveal(ops::value_order);
    lemma_text_order(s, t, 0);
    if before(s, t) && before(t, s) {
        let k = choose|k: int| #[trigger] first_difference(s, t, k) && (k == s.len() || s[k] < t[k]);
        let m = choose|k: int| #[trigger] first_difference(t, s, k) && (k == t.len() || t[k] < s[k]);
        if k < m {
            assert(t[k] == s[k]);
        } else if m < k {
            assert(s[m] == t[m]);
        }
        assert(false);
    }
    if before(s, t) && s == t {
        let k = choose|k: int| #[trigger] first_difference(s, t, k) && (k == s.len() || s[k] < t[k]);
        assert(false);
    }
    if before(t, s) && s == t {
        let k = choose|k: int| #[trigger] first_difference(t, s, k) && (k == t.len() || t[k] < s[k]);
        assert(false);
    }
}

proof fn lemma_text_order(s: Seq<char>, t: Seq<char>, i: int)
    requires
        0 <= i <= s.len(),
        i <= t.len(),
        forall|k: int| 0 <= k < i ==> #[trigger] s[k] == t[k],
    ensures
        match text::text_order_from(s, t, i) {
            Order::Less => before(s, t),
            Order::Greater => before(t, s),
            Order::Equal => s == t,
        },
    decreases s.len() - i,
{
    if i < s.len() && i < t.len() && s[i] == t[i] {
        lemma_text_order(s, t, i + 1);
    } else if i >= s.len() && i >= t.len() {
        assert(s =~= t);
    } else {
        if i >= s.len() || (i < t.len() && s[i] < t[i]) {
            assert(first_difference(s, t, i));
        } else {
            assert(first_difference(t, s, i));
        }
    }
}

/// A comparison with null is null.
pub proof fn lemma_compare_null(
    l: ExprV,
    op: CompOp,
    r: ExprV,
    a: ValV,
    b: ValV,
    rec: RecV,
    env: EnvV,
    st: StoreV,
)
    requires
        both_mean(l, a, r, b, rec, env, st),
        a is Null || b is Null,
    ensures
        is_null(compared(l, op, r, rec, env, st)),
{
    lemma_operands(l, a, r, b, rec, env, st);
    reveal_with_fuel(semantics::eval, 2);
    reveal(ops::comparison);
    reveal(ops::value_order);
}

/// `<` is `>` with the operands exchanged, `<=` and `>=` are the opposites of
/// `>` and `<`, and `<>` is that of `=`, of whatever values.
pub proof fn lemma_compare_opposites(
    l: ExprV,
    r: ExprV,
    a: ValV,
    b: ValV,
    rec: RecV,
    env: EnvV,
    st: StoreV,
)
    requires
        both_mean(l, a, r, b, rec, env, st),
    ensures
        compared(l, CompOp::Lt, r, rec, env, st) == compared(r, CompOp::Gt, l, rec, env, st),
        compared(l, CompOp::Lte, r, rec, env, st) == compared(r, CompOp::Gte, l, rec, env, st),
        is_true(compared(l, CompOp::Lt, r, rec, env, st)) <==> is_false(
            compared(l, CompOp::Gte, r, rec, env, st),
        ),
        is_true(compared(l, CompOp::Gt, r, rec, env, st)) <==> is_false(
            compared(l, CompOp::Lte, r, rec, env, st),
        ),
        is_true(compared(l, CompOp::Eq, r, rec, env, st)) <==> is_false(
            compared(l, CompOp::Neq, r, rec, env, st),
        ),
        is_true(compared(l, CompOp::Eq, r, rec, env, st)) <==> is_true(
            compared(l, CompOp::Lte, r, rec, env, st),
        ) && is_true(compared(l, CompOp::Gte, r, rec, env, st)),
{
    lemma_operands(l, a, r, b, rec, env, st);
    lemma_operands(r, b, l, a, rec, env, st);
    reveal_with_fuel(semantics::eval, 2);
    reveal(ops::comparison);
    ops::lemma_value_order(a, b);
    ops::lemma_value_order(b, a);
}

// ---------------------------------------------------------------------------
// Arithmetic
// ---------------------------------------------------------------------------

pub open spec fn computed(l: ExprV, op: BinaryOp, r: ExprV, rec: RecV, env: EnvV, st: StoreV) -> EvalV {
    semantics::eval(ExprV::BinaryOp { left: Box::new(l), op, right: Box::new(r) }, rec, env, st)
}

/// A whole number as a value, null where it is out of range.
pub open spec fn in_range(n: int) -> ValV {
    if i64::MIN <= n <= i64::MAX {
        ValV::Integer(n as i64)
    } else {
        ValV::Null
    }
}

/// Whole numbers add up, are subtracted and multiplied; what is out of range is
/// null.
pub proof fn lemma_integers(
    l: ExprV,
    r: ExprV,
    a: i64,
    b: i64,
    rec: RecV,
    env: EnvV,
    st: StoreV,
)
    requires
        both_mean(l, ValV::Integer(a), r, ValV::Integer(b), rec, env, st),
    ensures
        computed(l, BinaryOp::Add, r, rec, env, st) == Ok::<ValV, ErrV>(in_range(a + b)),
        computed(l, BinaryOp::Sub, r, rec, env, st) == Ok::<ValV, ErrV>(in_range(a - b)),
        computed(l, BinaryOp::Mul, r, rec, env, st) == Ok::<ValV, ErrV>(in_range(a * b)),
{
    lemma_operands(l, ValV::Integer(a), r, ValV::Integer(b), rec, env, st);
    reveal_with_fuel(semantics::eval, 2);
    reveal(ops::binary_op);
}

/// Whole numbers are divided towards zero, `%` gives what is left, and a
/// division by zero is an error.
pub proof fn lemma_division(
    l: ExprV,
    r: ExprV,
    a: i64,
    b: i64,
    rec: RecV,
    env: EnvV,
    st: StoreV,
)
    requires
        both_mean(l, ValV::Integer(a), r, ValV::Integer(b), rec, env, st),
        !(a == i64::MIN && b == -1),
    ensures
        b == 0 ==> computed(l, BinaryOp::Div, r, rec, env, st) is Err && computed(
            l,
            BinaryOp::Mod,
            r,
            rec,
            env,
            st,
        ) is Err,
        b != 0 ==> match (
            computed(l, BinaryOp::Div, r, rec, env, st),
            computed(l, BinaryOp::Mod, r, rec, env, st),
        ) {
            (Ok(ValV::Integer(q)), Ok(ValV::Integer(m))) => a == q * b + m && -size(b as int) < m
                < size(b as int) && (m == 0 || (m > 0) == (a > 0)),
            _ => false,
        },
{
    lemma_operands(l, ValV::Integer(a), r, ValV::Integer(b), rec, env, st);
    reveal_with_fuel(semantics::eval, 2);
    reveal(ops::binary_op);
    if b != 0 {
        let x = size(a as int);
        let d = size(b as int);
        let q = x / d;
        let m = x % d;
        assert(x == q * d + m && 0 <= m < d && 0 <= q <= x) by (nonlinear_arith)
            requires
                x >= 0,
                d > 0,
                q == x / d,
                m == x % d,
        ;
        assert((-q) * d == -(q * d)) by (nonlinear_arith);
        assert((-q) * (-d) == q * d) by (nonlinear_arith);
        assert(q * (-d) == -(q * d)) by (nonlinear_arith);
        if d > 1 && x > 0 {
            assert(q < x) by (nonlinear_arith)
                requires
                    x > 0,
                    d > 1,
                    q == x / d,
            ;
        }
    }
}

pub open spec fn size(n: int) -> int {
    if n < 0 {
        -n
    } else {
        n
    }
}

/// `+` puts one text or list behind another.
pub proof fn lemma_concatenation(
    l: ExprV,
    r: ExprV,
    a: ValV,
    b: ValV,
    rec: RecV,
    env: EnvV,
    st: StoreV,
)
    requires
        both_mean(l, a, r, b, rec, env, st),
    ensures
        a is Str && b is Str ==> computed(l, BinaryOp::Add, r, rec, env, st) == Ok::<ValV, ErrV>(
            ValV::Str(a->Str_0 + b->Str_0),
        ),
        a is List && b is List ==> computed(l, BinaryOp::Add, r, rec, env, st) == Ok::<ValV, ErrV>(
            ValV::List(a->List_0 + b->List_0),
        ),
{
    lemma_operands(l, a, r, b, rec, env, st);
    reveal_with_fuel(semantics::eval, 2);
    reveal(ops::binary_op);
}

/// A sign before a whole number: what is negated and added to the number is
/// nothing.
pub proof fn lemma_negation(e: ExprV, a: i64, rec: RecV, env: EnvV, st: StoreV)
    requires
        means(e, ValV::Integer(a), rec, env, st),
    ensures
        semantics::eval(
            ExprV::UnaryOp { op: UnaryOp::Neg, operand: Box::new(e) },
            rec,
            env,
            st,
        ) == Ok::<ValV, ErrV>(in_range(-a)),
        semantics::eval(
            ExprV::UnaryOp { op: UnaryOp::Pos, operand: Box::new(e) },
            rec,
            env,
            st,
        ) == Ok::<ValV, ErrV>(ValV::Integer(a)),
{
    lemma_means(e, ValV::Integer(a), rec, env, st, 0);
    reveal_with_fuel(semantics::eval, 2);
    reveal(ops::unary_op);
}

// ---------------------------------------------------------------------------
// Truth
// ---------------------------------------------------------------------------

/// AND is false where an operand is, true where both are, and else null; OR is
/// true where an operand is, false where both are, and else null; XOR is true
/// where just one is; NOT exchanges true and false.
pub proof fn lemma_truth(
    l: ExprV,
    r: ExprV,
    a: ValV,
    b: ValV,
    rec: RecV,
    env: EnvV,
    st: StoreV,
)
    requires
        both_mean(l, a, r, b, rec, env, st),
        a is Boolean || a is Null,
        b is Boolean || b is Null,
    ensures
        ({
            let t = ValV::Boolean(true);
            let f = ValV::Boolean(false);
            let both = semantics::eval(ExprV::And(Box::new(l), Box::new(r)), rec, env, st);
            let some = semantics::eval(ExprV::Or(Box::new(l), Box::new(r)), rec, env, st);
            let one = semantics::eval(ExprV::Xor(Box::new(l), Box::new(r)), rec, env, st);
            let not = semantics::eval(ExprV::Not(Box::new(l)), rec, env, st);
            &&& both is Ok && some is Ok && one is Ok && not is Ok
            &&& is_true(both) <==> a == t && b == t
            &&& is_false(both) <==> a == f || b == f
            &&& is_null(both) <==> !is_true(both) && !is_false(both)
            &&& is_true(some) <==> a == t || b == t
            &&& is_false(some) <==> a == f && b == f
            &&& is_null(some) <==> !is_true(some) && !is_false(some)
            &&& is_true(one) <==> (a == t && b == f) || (a == f && b == t)
            &&& is_false(one) <==> !(a is Null) && a == b
            &&& is_null(one) <==> a is Null || b is Null
            &&& is_true(not) <==> a == f
            &&& is_false(not) <==> a == t
            &&& is_null(not) <==> a is Null
        }),
{
    lemma_operands(l, a, r, b, rec, env, st);
    lemma_means(l, a, rec, env, st, 0);
    reveal_with_fuel(semantics::eval, 2);
}

/// `IS NULL` tells nulls from all other values, and `IS NOT NULL` says the
/// opposite.
pub proof fn lemma_null_tests(e: ExprV, v: ValV, rec: RecV, env: EnvV, st: StoreV)
    requires
        means(e, v, rec, env, st),
    ensures
        semantics::eval(ExprV::IsNull(Box::new(e)), rec, env, st) == Ok::<ValV, ErrV>(
            ValV::Boolean(v == ValV::Null),
        ),
        semantics::eval(ExprV::IsNotNull(Box::new(e)), rec, env, st) == Ok::<ValV, ErrV>(
            ValV::Boolean(v != ValV::Null),
        ),
{
    lemma_means(e, v, rec, env, st, 0);
    reveal_with_fuel(semantics::eval, 2);
}

// ---------------------------------------------------------------------------
// Texts and lists
// ---------------------------------------------------------------------------

/// STARTS WITH, ENDS WITH and CONTAINS say where one text stands in another.
pub proof fn lemma_text_tests(
    l: ExprV,
    r: ExprV,
    s: Seq<char>,
    p: Seq<char>,
    rec: RecV,
    env: EnvV,
    st: StoreV,
)
    requires
        both_mean(l, ValV::Str(s), r, ValV::Str(p), rec, env, st),
    ensures
        tested(l, StringMatchOp::StartsWith, r, rec, env, st) == Ok::<ValV, ErrV>(
            ValV::Boolean(exists|b: Seq<char>| s == #[trigger] (p + b)),
        ),
        tested(l, StringMatchOp::EndsWith, r, rec, env, st) == Ok::<ValV, ErrV>(
            ValV::Boolean(exists|a: Seq<char>| s == #[trigger] (a + p)),
        ),
        tested(l, StringMatchOp::Contains, r, rec, env, st) == Ok::<ValV, ErrV>(
            ValV::Boolean(exists|a: Seq<char>, b: Seq<char>| s == #[trigger] (a + p + b)),
        ),
{
    lemma_operands(l, ValV::Str(s), r, ValV::Str(p), rec, env, st);
    reveal_with_fuel(semantics::eval, 2);
    reveal(ops::string_op);
    text::lemma_contains(s, p);
    if text::starts_with_text(s, p) {
        assert(s =~= p + s.skip(p.len() as int)) by {
            assert(s.subrange(0, p.len() as int) == p);
        }
    }
    if exists|b: Seq<char>| s == #[trigger] (p + b) {
        let b = choose|b: Seq<char>| s == #[trigger] (p + b);
        assert(s.subrange(0, p.len() as int) =~= p);
    }
    if text::ends_with_text(s, p) {
        let n = s.len() - p.len();
        assert(s =~= s.take(n) + p) by {
            assert(s.subrange(n, n + p.len()) == p);
        }
    }
    if exists|a: Seq<char>| s == #[trigger] (a + p) {
        let a = choose|a: Seq<char>| s == #[trigger] (a + p);
        let n = s.len() - p.len();
        assert(s.subrange(n, n + p.len()) =~= p);
    }
    if text::contains_text(s, p) {
        let i = choose|i: int| text::occurs_at(s, p, i);
        assert(s =~= s.take(i) + p + s.skip(i + p.len())) by {
            assert(s.subrange(i, i + p.len()) == p);
        }
    }
    if exists|a: Seq<char>, b: Seq<char>| s == #[trigger] (a + p + b) {
        let (a, b) = choose|a: Seq<char>, b: Seq<char>| s == #[trigger] (a + p + b);
        let i = a.len() as int;
        assert(s.subrange(i, i + p.len()) =~= p);
        assert(text::occurs_at(s, p, i));
    }
}

pub open spec fn tested(
    l: ExprV,
    op: StringMatchOp,
    r: ExprV,
    rec: RecV,
    env: EnvV,
    st: StoreV,
) -> EvalV {
    semantics::eval(
        ExprV::StringOp { left: Box::new(l), op, right: Box::new(r) },
        rec,
        env,
        st,
    )
}

/// IN is true just where `=` is true of an item; where it is not, a null among
/// the items leaves it open, and so does a null before IN.
pub proof fn lemma_in(
    l: ExprV,
    r: ExprV,
    v: ValV,
    items: Seq<ValV>,
    rec: RecV,
    env: EnvV,
    st: StoreV,
)
    requires
        both_mean(l, v, r, ValV::List(items), rec, env, st),
    ensures
        ({
            let found = semantics::eval(
                ExprV::In { expr: Box::new(l), list: Box::new(r) },
                rec,
                env,
                st,
            );
            &&& is_true(found) <==> !(v is Null) && exists|i: int|
                0 <= i < items.len() && ops::comparison(v, CompOp::Eq, #[trigger] items[i])
                    == ValV::Boolean(true)
            &&& is_null(found) <==> v is Null || (!is_true(found) && items.contains(ValV::Null))
            &&& is_false(found) <==> !is_true(found) && !is_null(found)
        }),
{
    lemma_operands(l, v, r, ValV::List(items), rec, env, st);
    reveal_with_fuel(semantics::eval, 2);
    reveal(ops::in_list);
    reveal(ops::comparison);
    lemma_some_equal(v, items, 0);
    lemma_some_null(items, 0);
    if items.contains(ValV::Null) {
        let i = choose|i: int| 0 <= i < items.len() && items[i] == ValV::Null;
        assert(items[i] is Null);
    }
    if exists|i: int| 0 <= i < items.len() && #[trigger] items[i] is Null {
        let i = choose|i: int| 0 <= i < items.len() && #[trigger] items[i] is Null;
        assert(items[i] == ValV::Null);
    }
}

proof fn lemma_some_equal(v: ValV, items: Seq<ValV>, i: int)
    requires
        0 <= i <= items.len(),
    ensures
        ops::some_equal(v, items, i) <==> exists|k: int|
            i <= k < items.len() && ops::values_equal(v, #[trigger] items[k]),
    decreases items.len() - i,
{
    if i < items.len() {
        lemma_some_equal(v, items, i + 1);
        if ops::values_equal(v, items[i]) {
            assert(exists|k: int| i <= k < items.len() && ops::values_equal(v, #[trigger] items[k]));
        }
        if ops::some_equal(v, items, i + 1) {
            let k = choose|k: int|
                i + 1 <= k < items.len() && ops::values_equal(v, #[trigger] items[k]);
            assert(ops::values_equal(v, items[k]));
        }
    }
}

proof fn lemma_some_null(items: Seq<ValV>, i: int)
    requires
        0 <= i <= items.len(),
    ensures
        ops::some_null(items, i) <==> exists|k: int|
            i <= k < items.len() && #[trigger] items[k] is Null,
    decreases items.len() - i,
{
    if i < items.len() {
        lemma_some_null(items, i + 1);
        if items[i] is Null {
            assert(exists|k: int| i <= k < items.len() && #[trigger] items[k] is Null);
        }
        if ops::some_null(items, i + 1) {
            let k = choose|k: int| i + 1 <= k < items.len() && #[trigger] items[k] is Null;
            assert(items[k] is Null);
        }
    }
}

/// `xs[i]` is the item at a place, counted from the end where the number is
/// negative, and null outside of the list.
pub proof fn lemma_index(
    l: ExprV,
    r: ExprV,
    items: Seq<ValV>,
    i: i64,
    rec: RecV,
    env: EnvV,
    st: StoreV,
)
    requires
        both_mean(l, ValV::List(items), r, ValV::Integer(i), rec, env, st),
    ensures
        ({
            let got = semantics::eval(
                ExprV::DynamicProperty { expr: Box::new(l), key: Box::new(r) },
                rec,
                env,
                st,
            );
            &&& 0 <= i < items.len() ==> got == Ok::<ValV, ErrV>(items[i as int])
            &&& -items.len() <= i < 0 ==> got == Ok::<ValV, ErrV>(items[items.len() + i])
            &&& i >= items.len() || i < -items.len() ==> is_null(got)
        }),
{
    lemma_operands(l, ValV::List(items), r, ValV::Integer(i), rec, env, st);
    reveal_with_fuel(semantics::eval, 2);
    reveal(ops::dynamic_property);
}

/// A property of a node, a relationship or a map is what is stored under its
/// name, null where nothing is; `x.k` and `x['k']` are the same.
pub proof fn lemma_property(
    e: ExprV,
    r: ExprV,
    v: ValV,
    k: Seq<char>,
    rec: RecV,
    env: EnvV,
    st: StoreV,
)
    requires
        both_mean(e, v, r, ValV::Str(k), rec, env, st),
    ensures
        ({
            let got = semantics::eval(ExprV::Property(Box::new(e), k), rec, env, st);
            &&& got == semantics::eval(
                ExprV::DynamicProperty { expr: Box::new(e), key: Box::new(r) },
                rec,
                env,
                st,
            )
            &&& match v {
                ValV::Node(n) => read_from(got, n.properties, k),
                ValV::Relationship(g) => read_from(got, g.properties, k),
                ValV::Dict(m) => match assoc::lookup(m, k) {
                    Some(w) => got == Ok::<ValV, ErrV>(w),
                    None => is_null(got),
                },
                _ => is_null(got),
            }
        }),
{
    lemma_operands(e, v, r, ValV::Str(k), rec, env, st);
    lemma_means(e, v, rec, env, st, 0);
    reveal_with_fuel(semantics::eval, 2);
    reveal(ops::dynamic_property);
    reveal(ops::property_of);
}

/// What was read is the property of a name.
pub open spec fn read_from(got: EvalV, props: PropsV, k: Seq<char>) -> bool {
    match assoc::lookup(props, k) {
        Some(p) => got matches Ok(w) && changes::stores(p, w),
        None => is_null(got),
    }
}

pub open spec fn sliced(
    e: ExprV,
    from: Option<ExprV>,
    to: Option<ExprV>,
    rec: RecV,
    env: EnvV,
    st: StoreV,
) -> EvalV {
    semantics::eval(
        ExprV::ListSlice {
            expr: Box::new(e),
            start: match from {
                Some(f) => Some(Box::new(f)),
                None => None,
            },
            end: match to {
                Some(f) => Some(Box::new(f)),
                None => None,
            },
        },
        rec,
        env,
        st,
    )
}

/// `xs[i..j]` are the items from the `i`-th to before the `j`-th; and a list is
/// what stands before a place in it and what stands from there on, wherever the
/// place is.
pub proof fn lemma_slice(
    e: ExprV,
    p: ExprV,
    q: ExprV,
    items: Seq<ValV>,
    i: i64,
    j: i64,
    rec: RecV,
    env: EnvV,
    st: StoreV,
)
    requires
        means(e, ValV::List(items), rec, env, st),
        both_mean(p, ValV::Integer(i), q, ValV::Integer(j), rec, env, st),
    ensures
        0 <= i <= j <= items.len() ==> sliced(e, Some(p), Some(q), rec, env, st) == Ok::<
            ValV,
            ErrV,
        >(ValV::List(items.subrange(i as int, j as int))),
        match (sliced(e, None, Some(p), rec, env, st), sliced(e, Some(p), None, rec, env, st)) {
            (Ok(ValV::List(a)), Ok(ValV::List(b))) => a + b == items && (0 <= i <= items.len()
                ==> a.len() == i) && (-items.len() <= i < 0 ==> b.len() == -i),
            _ => false,
        },
{
    lemma_sliced(e, items, Some(p), Some(ValV::Integer(i)), None, None, rec, env, st);
    lemma_sliced(e, items, None, None, Some(p), Some(ValV::Integer(i)), rec, env, st);
    lemma_sliced(
        e,
        items,
        Some(p),
        Some(ValV::Integer(i)),
        Some(q),
        Some(ValV::Integer(j)),
        rec,
        env,
        st,
    );
    let k = ops::slice_bound(Some(ValV::Integer(i)), items.len() as int, 0);
    assert(0 <= k <= items.len());
    if 0 < k < items.len() {
        assert(items.subrange(0, k) + items.subrange(k, items.len() as int) =~= items);
    } else if k == 0 {
        assert(items.subrange(0, items.len() as int) =~= items);
    } else {
        assert(items.subrange(0, k) =~= items);
    }
    if 0 <= i == j <= items.len() {
        assert(items.subrange(i as int, j as int) =~= seq![]);
    }
}

spec fn means_maybe(
    o: Option<ExprV>,
    v: Option<ValV>,
    rec: RecV,
    env: EnvV,
    st: StoreV,
) -> bool {
    match (o, v) {
        (Some(e), Some(w)) => means(e, w, rec, env, st),
        (None, None) => true,
        _ => false,
    }
}

proof fn lemma_maybe(
    o: Option<Box<ExprV>>,
    v: Option<ValV>,
    rec: RecV,
    env: EnvV,
    st: StoreV,
    k: int,
)
    requires
        match (o, v) {
            (Some(e), Some(w)) => means(*e, w, rec, env, st),
            (None, None) => true,
            _ => false,
        },
    ensures
        semantics::eval_opt(o, rec, env.at(k), st) == Ok::<Option<ValV>, ErrV>(v),
{
    if let Some(e) = o {
        lemma_means(*e, v->0, rec, env, st, k);
    }
}

proof fn lemma_sliced(
    e: ExprV,
    items: Seq<ValV>,
    from: Option<ExprV>,
    a: Option<ValV>,
    to: Option<ExprV>,
    b: Option<ValV>,
    rec: RecV,
    env: EnvV,
    st: StoreV,
)
    requires
        means(e, ValV::List(items), rec, env, st),
        means_maybe(from, a, rec, env, st),
        means_maybe(to, b, rec, env, st),
    ensures
        sliced(e, from, to, rec, env, st) == Ok::<ValV, ErrV>(
            ValV::List(ops::between_bounds(items, a, b)),
        ),
{
    lemma_means(e, ValV::List(items), rec, env, st, 0);
    let start: Option<Box<ExprV>> = match from {
        Some(f) => Some(Box::new(f)),
        None => None,
    };
    let end: Option<Box<ExprV>> = match to {
        Some(f) => Some(Box::new(f)),
        None => None,
    };
    lemma_maybe(start, a, rec, env, st, 1);
    lemma_maybe(end, b, rec, env, st, 2);
    let whole = ExprV::ListSlice { expr: Box::new(e), start, end };
    assert(semantics::eval(whole, rec, env, st) == semantics::eval_parts(whole, rec, env, st));
    reveal(ops::slice_of);
    assert(semantics::eval_parts(whole, rec, env, st) == Ok::<ValV, ErrV>(
        ops::slice_of(ValV::List(items), a, b),
    ));
}

} // verus!
