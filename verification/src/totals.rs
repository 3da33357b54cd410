//! What the functions over groups give for the rows of a group.
use crate::aggregate;
use crate::ast::{BinaryOp, ExprV};
use crate::identity;
use crate::keying;
use crate::ops;
use crate::outside::{AnswerV, AnswersV, ArithOp, RequestV};
use crate::semantics::{self, EnvV};
use crate::sorting;
use crate::store::StoreV;
use crate::text::{self, Order};
use crate::value::{RecV, ValV};
use vstd::prelude::*;

verus! {

/// The values of an expression on rows, whatever random numbers are drawn.
pub open spec fn has_values(e: ExprV, rows: Seq<RecV>, vals: Seq<ValV>, st: StoreV) -> bool {
    &&& rows.len() == vals.len()
    &&& forall|i: int, env: EnvV|
        0 <= i < rows.len() ==> #[trigger] semantics::eval(e, rows[i], env, st) == Ok::<
            ValV,
            crate::error::ErrV,
        >(vals[i])
}

/// The values that are not null, in order.
pub open spec fn present(vals: Seq<ValV>) -> Seq<ValV> {
    vals.filter(|v: ValV| !(v is Null))
}

/// A call of a function with one argument.
pub open spec fn call(name: Seq<char>, distinct: bool, e: ExprV) -> ExprV {
    ExprV::FunctionCall { name, distinct, args: seq![e] }
}

/// The value of a call over the rows of a group.
pub open spec fn over(
    name: Seq<char>,
    distinct: bool,
    e: ExprV,
    rows: Seq<RecV>,
    env: EnvV,
    st: StoreV,
) -> ops::EvalV {
    aggregate::aggregate(call(name, distinct, e), rows, env, st)
}

proof fn lemma_names()
    ensures
        "count"@ != "sum"@,
        "count"@ != "avg"@,
        "count"@ != "min"@,
        "count"@ != "max"@,
        "count"@ != "collect"@,
        "count"@ != "stdev"@,
        "count"@ != "stdevp"@,
        "sum"@ != "avg"@,
        "sum"@ != "min"@,
        "sum"@ != "max"@,
        "sum"@ != "collect"@,
        "sum"@ != "stdev"@,
        "sum"@ != "stdevp"@,
        "avg"@ != "min"@,
        "avg"@ != "max"@,
        "avg"@ != "collect"@,
        "avg"@ != "stdev"@,
        "avg"@ != "stdevp"@,
        "min"@ != "max"@,
        "min"@ != "collect"@,
        "min"@ != "stdev"@,
        "min"@ != "stdevp"@,
        "max"@ != "collect"@,
        "max"@ != "stdev"@,
        "max"@ != "stdevp"@,
        "collect"@ != "stdev"@,
        "collect"@ != "stdevp"@,
        "stdev"@ != "stdevp"@,
        forall|f: Seq<char>| f.len() < 10 ==> #[trigger] is_plain(f),
        "count"@.len() < 10,
        "sum"@.len() < 10,
        "avg"@.len() < 10,
        "min"@.len() < 10,
        "max"@.len() < 10,
        "collect"@.len() < 10,
        "stdev"@.len() < 10,
        "stdevp"@.len() < 10,
{
    reveal_strlit("count");
    reveal_strlit("sum");
    reveal_strlit("avg");
    reveal_strlit("min");
    reveal_strlit("max");
    reveal_strlit("collect");
    reveal_strlit("stdev");
    reveal_strlit("stdevp");
    reveal_strlit("percentilecont");
    reveal_strlit("percentiledisc");
    assert("count"@[0] == 'c' && "count"@[1] == 'o' && "count"@[2] == 'u');
    assert("collect"@[2] == 'l');
    assert("sum"@[0] == 's' && "sum"@[1] == 'u');
    assert("stdev"@[1] == 't' && "stdevp"@[1] == 't');
    assert("avg"@[0] == 'a');
    assert("min"@[0] == 'm' && "min"@[1] == 'i');
    assert("max"@[0] == 'm' && "max"@[1] == 'a');
    assert("stdev"@.len() == 5 && "stdevp"@.len() == 6 && "stdevp"@[0] == 's');
    assert("stdev"@[0] == 's');
    assert("collect"@[0] == 'c');
}

spec fn is_plain(f: Seq<char>) -> bool {
    f != "percentilecont"@ && f != "percentiledisc"@
}

proof fn lemma_present(
    e: ExprV,
    rows: Seq<RecV>,
    vals: Seq<ValV>,
    i: int,
    acc: Seq<ValV>,
    env: EnvV,
    st: StoreV,
)
    requires
        has_values(e, rows, vals, st),
        0 <= i <= rows.len(),
        acc == present(vals.take(i)),
    ensures
        semantics::non_null_values(e, rows, i, acc, env, st) == Ok::<
            Seq<ValV>,
            crate::error::ErrV,
        >(present(vals)),
    decreases rows.len() - i,
{
    if i < rows.len() {
        assert(semantics::eval(e, rows[i], env.at(i), st) == Ok::<ValV, crate::error::ErrV>(
            vals[i],
        ));
        let next = vals.take(i + 1);
        assert(next.drop_last() =~= vals.take(i));
        assert(next.last() == vals[i]);
        reveal_with_fuel(Seq::filter, 2);
        if vals[i] is Null {
            lemma_present(e, rows, vals, i + 1, acc, env, st);
        } else {
            assert(present(next) == acc.push(vals[i]));
            lemma_present(e, rows, vals, i + 1, acc.push(vals[i]), env, st);
        }
    } else {
        assert(vals.take(i) =~= vals);
    }
}

/// A call over a group is the function on the values that are not null.
proof fn lemma_over(
    name: Seq<char>,
    distinct: bool,
    e: ExprV,
    rows: Seq<RecV>,
    vals: Seq<ValV>,
    env: EnvV,
    st: StoreV,
)
    requires
        has_values(e, rows, vals, st),
        crate::functions::is_aggregate(text::lower_text(name)),
        is_plain(text::lower_text(name)),
    ensures
        over(name, distinct, e, rows, env, st) == aggregate::group_function(
            text::lower_text(name),
            if distinct && !aggregate::takes_all(text::lower_text(name)) {
                aggregate::distinct_values(present(vals), 0, seq![], seq![])
            } else {
                present(vals)
            },
            env.answers,
        ),
{
    reveal_with_fuel(semantics::eval, 6);
    let inner = env.over(rows).alone().at(0);
    assert(vals.take(0).filter(|v: ValV| !(v is Null)) =~= seq![]);
    lemma_present(e, rows, vals, 0, seq![], inner, st);
    assert(seq![e][0] == e);
}

// ---------------------------------------------------------------------------
// count, collect
// ---------------------------------------------------------------------------

/// `count` counts the values that are not null, and `collect` lists them in the
/// order of the rows.
pub proof fn lemma_count(
    count: Seq<char>,
    collect: Seq<char>,
    e: ExprV,
    rows: Seq<RecV>,
    vals: Seq<ValV>,
    env: EnvV,
    st: StoreV,
)
    requires
        text::lower_text(count) == "count"@,
        text::lower_text(collect) == "collect"@,
        has_values(e, rows, vals, st),
        rows.len() <= i64::MAX,
    ensures
        over(collect, false, e, rows, env, st) == Ok::<ValV, crate::error::ErrV>(
            ValV::List(present(vals)),
        ),
        over(count, false, e, rows, env, st) == Ok::<ValV, crate::error::ErrV>(
            ValV::Integer(present(vals).len() as i64),
        ),
        (forall|i: int| 0 <= i < vals.len() ==> !(#[trigger] vals[i] is Null)) ==> over(
            count,
            false,
            e,
            rows,
            env,
            st,
        ) == Ok::<ValV, crate::error::ErrV>(ValV::Integer(rows.len() as i64)),
{
    lemma_names();
    lemma_over(count, false, e, rows, vals, env, st);
    lemma_over(collect, false, e, rows, vals, env, st);
    if forall|i: int| 0 <= i < vals.len() ==> !(#[trigger] vals[i] is Null) {
        lemma_all_present(vals);
    }
}

proof fn lemma_all_present(vals: Seq<ValV>)
    requires
        forall|i: int| 0 <= i < vals.len() ==> !(#[trigger] vals[i] is Null),
    ensures
        present(vals) == vals,
    decreases vals.len(),
{
    reveal_with_fuel(Seq::filter, 2);
    if vals.len() > 0 {
        lemma_all_present(vals.drop_last());
        assert(present(vals) =~= vals);
    }
}

/// `count(*)` counts the rows.
pub proof fn lemma_count_rows(count: Seq<char>, rows: Seq<RecV>, env: EnvV, st: StoreV)
    requires
        text::lower_text(count) == "count"@,
        rows.len() <= i64::MAX,
    ensures
        aggregate::aggregate(
            ExprV::FunctionCall { name: count, distinct: false, args: seq![] },
            rows,
            env,
            st,
        ) == Ok::<ValV, crate::error::ErrV>(ValV::Integer(rows.len() as i64)),
{
    lemma_names();
    let none: Seq<ExprV> = seq![];
    let e = ExprV::FunctionCall { name: count, distinct: false, args: none };
    let rec = if rows.len() > 0 {
        rows[0]
    } else {
        seq![]
    };
    let inner = env.over(rows);
    assert(is_plain("count"@));
    reveal_with_fuel(semantics::eval, 2);
    reveal_with_fuel(semantics::eval_call, 2);
    reveal_with_fuel(semantics::over_group, 1);
    assert(semantics::eval(e, rec, inner, st) == semantics::eval_call(
        count,
        false,
        none,
        rec,
        inner,
        st,
    ));
    assert(semantics::over_group("count"@, false, none, rows, inner.alone(), st) == Ok::<
        ValV,
        crate::error::ErrV,
    >(ValV::Integer(rows.len() as i64)));
}

// ---------------------------------------------------------------------------
// sum, avg
// ---------------------------------------------------------------------------

/// Answers add: the sum of numbers with one more is the sum of the numbers and
/// that one, and the sum of one number is the number.
pub open spec fn add_up(ans: AnswersV) -> bool {
    &&& forall|x: u64| #[trigger] ans(RequestV::Sum(seq![x])) == Some(AnswerV::Float(x))
    &&& forall|xs: Seq<u64>, x: u64, s: u64|
        xs.len() > 0 && #[trigger] ans(RequestV::Sum(xs)) == Some(AnswerV::Float(s)) ==> ans(
            RequestV::Sum(#[trigger] xs.push(x)),
        ) == #[trigger] ans(RequestV::Arith(ArithOp::Add, s, x))
}

/// Answers average: the mean of numbers is their sum by their number.
pub open spec fn average(ans: AnswersV) -> bool {
    forall|xs: Seq<u64>, s: u64|
        0 < xs.len() <= i64::MAX && #[trigger] ans(RequestV::Sum(xs)) == Some(AnswerV::Float(s))
            ==> ans(RequestV::Mean(xs)) == #[trigger] ans(
            RequestV::Arith(
                ArithOp::Div,
                s,
                crate::number::int_as_float(xs.len() as int) as u64,
            ),
        )
}

pub open spec fn is_number(v: ValV) -> bool {
    v is Integer || v is Float
}

/// Some of the values is no integer.
pub open spec fn some_fraction(vals: Seq<ValV>) -> bool {
    exists|i: int| 0 <= i < vals.len() && !(#[trigger] vals[i] is Integer)
}

/// A sum grows by each number: with one more row, the sum of an expression is
/// the sum before and the number that the row adds. Integers add to an integer,
/// where it fits, and a null adds nothing.
pub proof fn lemma_sum(
    sum: Seq<char>,
    e: ExprV,
    rows: Seq<RecV>,
    vals: Seq<ValV>,
    row: RecV,
    x: ValV,
    env: EnvV,
    st: StoreV,
)
    requires
        text::lower_text(sum) == "sum"@,
        has_values(e, rows.push(row), vals.push(x), st),
        rows.len() == vals.len(),
        add_up(env.answers),
    ensures
        ({
            let before = over(sum, false, e, rows, env, st);
            let after = over(sum, false, e, rows.push(row), env, st);
            let old = present(vals);
            &&& x is Null ==> after == before
            &&& old.len() == 0 && is_number(x) ==> after == Ok::<ValV, crate::error::ErrV>(x)
            &&& old.len() == 0 ==> before == Ok::<ValV, crate::error::ErrV>(ValV::Integer(0))
            &&& some_fraction(old) && some_number(old) && is_number(x) ==> {
                before matches Ok(s) ==> s is Float && match ops::binary_op(
                    env.answers,
                    s,
                    BinaryOp::Add,
                    x,
                ) {
                    Ok(t) => after == Ok::<ValV, crate::error::ErrV>(t),
                    Err(_) => after is Err,
                }
            }
            &&& some_fraction(old) && !is_number(x) ==> after == before
            &&& !some_fraction(old) && x is Integer ==> match before {
                Ok(ValV::Integer(s)) => if i64::MIN <= s + x->Integer_0 <= i64::MAX {
                    after == Ok::<ValV, crate::error::ErrV>(
                        ValV::Integer((s + x->Integer_0) as i64),
                    )
                } else {
                    after is Err
                },
                Ok(_) => false,
                Err(_) => after is Err,
            }
        }),
{
    lemma_names();
    let more = rows.push(row);
    let now = vals.push(x);
    assert forall|i: int, k: EnvV| 0 <= i < rows.len() implies #[trigger] semantics::eval(
        e,
        rows[i],
        k,
        st,
    ) == Ok::<ValV, crate::error::ErrV>(vals[i]) by {
        assert(more[i] == rows[i] && now[i] == vals[i]);
        assert(semantics::eval(e, more[i], k, st) == Ok::<ValV, crate::error::ErrV>(now[i]));
    }
    lemma_over(sum, false, e, rows, vals, env, st);
    lemma_over(sum, false, e, more, now, env, st);
    let old = present(vals);
    assert(now.drop_last() =~= vals);
    reveal_with_fuel(Seq::filter, 2);
    if !(x is Null) {
        assert(present(now) == old.push(x));
        lemma_sum_push(old, x, env.answers);
    }
    lemma_all_integers(old, 0);
}

/// Some of the values is a number.
pub open spec fn some_number(vals: Seq<ValV>) -> bool {
    exists|i: int| 0 <= i < vals.len() && is_number(#[trigger] vals[i])
}

proof fn lemma_all_integers(vals: Seq<ValV>, i: int)
    requires
        0 <= i <= vals.len(),
    ensures
        aggregate::all_integers(vals, i) <==> forall|k: int|
            i <= k < vals.len() ==> #[trigger] vals[k] is Integer,
    decreases vals.len() - i,
{
    if i < vals.len() {
        lemma_all_integers(vals, i + 1);
    }
}

proof fn lemma_numbers_push(vals: Seq<ValV>, x: ValV, i: int, acc: Seq<u64>)
    requires
        0 <= i <= vals.len(),
    ensures
        aggregate::numbers(vals.push(x), i, acc) == match ops::float_of(x) {
            Some(f) => aggregate::numbers(vals, i, acc).push(f),
            None => aggregate::numbers(vals, i, acc),
        },
        aggregate::numbers(vals, i, acc).len() >= acc.len(),
        (exists|k: int| i <= k < vals.len() && is_number(#[trigger] vals[k]))
            ==> aggregate::numbers(vals, i, acc).len() > acc.len(),
    decreases vals.len() - i,
{
    let now = vals.push(x);
    if i < vals.len() {
        assert(now[i] == vals[i]);
        match ops::float_of(vals[i]) {
            Some(f) => {
                lemma_numbers_push(vals, x, i + 1, acc.push(f));
            },
            None => {
                lemma_numbers_push(vals, x, i + 1, acc);
            },
        }
    } else {
        reveal_with_fuel(aggregate::numbers, 2);
        assert(now[i] == x);
    }
}

proof fn lemma_integer_sum_push(vals: Seq<ValV>, n: i64, i: int, acc: int)
    requires
        0 <= i <= vals.len(),
        i64::MIN <= acc <= i64::MAX,
        forall|k: int| i <= k < vals.len() ==> #[trigger] vals[k] is Integer,
    ensures
        aggregate::integer_sum(vals.push(ValV::Integer(n)), i, acc) == match aggregate::integer_sum(
            vals,
            i,
            acc,
        ) {
            Some(a) => if i64::MIN <= a + n <= i64::MAX {
                Some(a + n)
            } else {
                None
            },
            None => None,
        },
        aggregate::integer_sum(vals, i, acc) matches Some(a) ==> i64::MIN <= a <= i64::MAX,
    decreases vals.len() - i,
{
    let now = vals.push(ValV::Integer(n));
    if i < vals.len() {
        assert(now[i] == vals[i]);
        let m = vals[i]->Integer_0;
        if i64::MIN <= acc + m <= i64::MAX {
            lemma_integer_sum_push(vals, n, i + 1, acc + m);
        }
    } else {
        reveal_with_fuel(aggregate::integer_sum, 2);
        assert(now[i] == ValV::Integer(n));
    }
}

proof fn lemma_sum_push(vals: Seq<ValV>, x: ValV, ans: AnswersV)
    requires
        add_up(ans),
    ensures
        ({
            let before = aggregate::group_function("sum"@, vals, ans);
            let after = aggregate::group_function("sum"@, vals.push(x), ans);
            &&& vals.len() == 0 && is_number(x) ==> after == Ok::<ValV, crate::error::ErrV>(x)
            &&& vals.len() == 0 ==> before == Ok::<ValV, crate::error::ErrV>(ValV::Integer(0))
            &&& some_fraction(vals) && some_number(vals) && is_number(x) ==> {
                before matches Ok(s) ==> s is Float && match ops::binary_op(
                    ans,
                    s,
                    BinaryOp::Add,
                    x,
                ) {
                    Ok(t) => after == Ok::<ValV, crate::error::ErrV>(t),
                    Err(_) => after is Err,
                }
            }
            &&& some_fraction(vals) && !is_number(x) ==> after == before
            &&& !some_fraction(vals) && x is Integer ==> match before {
                Ok(ValV::Integer(s)) => if i64::MIN <= s + x->Integer_0 <= i64::MAX {
                    after == Ok::<ValV, crate::error::ErrV>(
                        ValV::Integer((s + x->Integer_0) as i64),
                    )
                } else {
                    after is Err
                },
                Ok(_) => false,
                Err(_) => after is Err,
            }
        }),
{
    lemma_names();
    let now = vals.push(x);
    lemma_all_integers(vals, 0);
    lemma_all_integers(now, 0);
    lemma_numbers_push(vals, x, 0, seq![]);
    assert(now[vals.len() as int] == x);
    assert forall|i: int| 0 <= i < vals.len() implies #[trigger] now[i] == vals[i] by {}
    if !some_fraction(vals) {
        assert forall|i: int| 0 <= i < vals.len() implies #[trigger] vals[i] is Integer by {}
    }
    let xs = aggregate::numbers(vals, 0, seq![]);
    reveal(ops::binary_op);
    if some_fraction(vals) {
        let i = choose|i: int| 0 <= i < vals.len() && !(#[trigger] vals[i] is Integer);
        assert(!(now[i] is Integer));
        if some_number(vals) && is_number(x) {
            let f = ops::float_of(x)->0;
            assert(xs.len() > 0);
            match ans(RequestV::Sum(xs)) {
                Some(AnswerV::Float(s)) => {
                    assert(ans(RequestV::Sum(xs.push(f))) == ans(
                        RequestV::Arith(ArithOp::Add, s, f),
                    ));
                },
                _ => {},
            }
        }
    } else {
        if x is Integer {
            lemma_integer_sum_push(vals, x->Integer_0, 0, 0);
        }
        if vals.len() == 0 && x is Float {
            assert(aggregate::numbers(now, 0, seq![]) =~= seq![x->Float_0]);
        }
    }
}

/// The average of values is their sum by the number of the numbers among them;
/// without a number it is null.
pub proof fn lemma_avg(
    avg: Seq<char>,
    sum: Seq<char>,
    e: ExprV,
    rows: Seq<RecV>,
    vals: Seq<ValV>,
    env: EnvV,
    st: StoreV,
)
    requires
        text::lower_text(avg) == "avg"@,
        text::lower_text(sum) == "sum"@,
        has_values(e, rows, vals, st),
        add_up(env.answers),
        average(env.answers),
        rows.len() <= i64::MAX,
    ensures
        ({
            let mean = over(avg, false, e, rows, env, st);
            let total = over(sum, false, e, rows, env, st);
            let n = vals.filter(|v: ValV| is_number(v)).len() as i64;
            &&& !some_number(vals) ==> mean == Ok::<ValV, crate::error::ErrV>(ValV::Null)
            &&& some_number(vals) && some_fraction(present(vals)) ==> {
                total matches Ok(s) ==> s is Float && match (env.answers)(
                    RequestV::Arith(
                        ArithOp::Div,
                        s->Float_0,
                        crate::number::int_as_float(n as int) as u64,
                    ),
                ) {
                    Some(AnswerV::Float(m)) => mean == Ok::<ValV, crate::error::ErrV>(
                        ValV::Float(m),
                    ),
                    _ => mean is Err,
                }
            }
        }),
{
    lemma_names();
    lemma_over(avg, false, e, rows, vals, env, st);
    lemma_over(sum, false, e, rows, vals, env, st);
    let old = present(vals);
    lemma_all_integers(old, 0);
    lemma_numbers_count(vals);
}

proof fn lemma_numbers_count(vals: Seq<ValV>)
    ensures
        aggregate::numbers(present(vals), 0, seq![]).len() == vals.filter(
            |v: ValV| is_number(v),
        ).len(),
        vals.filter(|v: ValV| is_number(v)).len() <= vals.len(),
        some_number(vals) <==> vals.filter(|v: ValV| is_number(v)).len() > 0,
    decreases vals.len(),
{
    reveal_with_fuel(Seq::filter, 2);
    if vals.len() > 0 {
        let d = vals.drop_last();
        let x = vals.last();
        lemma_numbers_count(d);
        if some_number(d) {
            let i = choose|i: int| 0 <= i < d.len() && is_number(#[trigger] d[i]);
            assert(is_number(vals[i]));
        }
        if some_number(vals) && !is_number(x) {
            let i = choose|i: int| 0 <= i < vals.len() && is_number(#[trigger] vals[i]);
            assert(is_number(d[i]));
        }
        if is_number(x) {
            assert(vals[vals.len() - 1] == x);
        }
        if !(x is Null) {
            assert(present(vals) == present(d).push(x));
            lemma_numbers_push(present(d), x, 0, seq![]);
        }
    } else {
        assert(present(vals) =~= seq![]);
    }
}

// ---------------------------------------------------------------------------
// min, max
// ---------------------------------------------------------------------------

/// Of values of one kind, `min` gives one than which none is smaller and `max`
/// one than which none is greater; nulls do not count.
pub proof fn lemma_extremes(
    min: Seq<char>,
    max: Seq<char>,
    distinct: bool,
    e: ExprV,
    rows: Seq<RecV>,
    vals: Seq<ValV>,
    env: EnvV,
    st: StoreV,
)
    requires
        text::lower_text(min) == "min"@,
        text::lower_text(max) == "max"@,
        has_values(e, rows, vals, st),
        present(vals).len() > 0,
        sorting::all_of_one_kind(present(vals)),
    ensures
        over(min, distinct, e, rows, env, st) matches Ok(a) && over(max, distinct, e, rows, env, st)
            matches Ok(b) && present(vals).contains(a) && present(vals).contains(b) && forall|i: int|
            0 <= i < present(vals).len() ==> ops::value_order(a, #[trigger] present(vals)[i])
                != Some(Order::Greater) && ops::value_order(present(vals)[i], b) != Some(
                Order::Greater,
            ),
{
    lemma_names();
    lemma_over(min, distinct, e, rows, vals, env, st);
    lemma_over(max, distinct, e, rows, vals, env, st);
    sorting::lemma_min_max(present(vals));
}

// ---------------------------------------------------------------------------
// stdev, stdevp
// ---------------------------------------------------------------------------

/// In answers the deviation of a sample is not below that of a population.
pub open spec fn samples_spread(ans: AnswersV) -> bool {
    forall|xs: Seq<u64>|
        xs.len() > 1 ==> match (
            #[trigger] ans(RequestV::Stdev(xs, true)),
            ans(RequestV::Stdev(xs, false)),
        ) {
            (Some(AnswerV::Float(a)), Some(AnswerV::Float(b))) => ops::value_order(
                ValV::Float(b),
                ValV::Float(a),
            ) != Some(Order::Greater),
            _ => false,
        }
}

/// `stdev` takes the values for a sample: it needs two numbers, and is not
/// below `stdevp`, which takes them for all there is and needs one.
pub proof fn lemma_stdev(
    stdev: Seq<char>,
    stdevp: Seq<char>,
    e: ExprV,
    rows: Seq<RecV>,
    vals: Seq<ValV>,
    env: EnvV,
    st: StoreV,
)
    requires
        text::lower_text(stdev) == "stdev"@,
        text::lower_text(stdevp) == "stdevp"@,
        has_values(e, rows, vals, st),
        samples_spread(env.answers),
    ensures
        ({
            let n = vals.filter(|v: ValV| is_number(v)).len();
            let a = over(stdev, false, e, rows, env, st);
            let b = over(stdevp, false, e, rows, env, st);
            &&& n < 2 ==> a == Ok::<ValV, crate::error::ErrV>(ValV::Null)
            &&& n < 1 ==> b == Ok::<ValV, crate::error::ErrV>(ValV::Null)
            &&& n == 1 ==> b != Ok::<ValV, crate::error::ErrV>(ValV::Null)
            &&& n > 1 ==> match (a, b) {
                (Ok(x), Ok(y)) => x is Float && y is Float && ops::value_order(y, x) != Some(
                    Order::Greater,
                ),
                _ => false,
            }
        }),
{
    lemma_names();
    lemma_over(stdev, false, e, rows, vals, env, st);
    lemma_over(stdevp, false, e, rows, vals, env, st);
    lemma_numbers_count(vals);
    let xs = aggregate::numbers(present(vals), 0, seq![]);
    if xs.len() > 1 {
        assert((env.answers)(RequestV::Stdev(xs, true)) is Some);
    }
}

// ---------------------------------------------------------------------------
// DISTINCT
// ---------------------------------------------------------------------------

/// A value is like one of others.
pub open spec fn is_like_one(v: ValV, kept: Seq<ValV>) -> bool {
    exists|j: int| 0 <= j < kept.len() && identity::alike(#[trigger] kept[j], v)
}

/// With DISTINCT, `collect` lists the values without repetition and `count`
/// counts them: each is one of the values, no two are alike, and each of the
/// values is like one of them.
pub proof fn lemma_distinct(
    count: Seq<char>,
    collect: Seq<char>,
    e: ExprV,
    rows: Seq<RecV>,
    vals: Seq<ValV>,
    env: EnvV,
    st: StoreV,
)
    requires
        text::lower_text(count) == "count"@,
        text::lower_text(collect) == "collect"@,
        has_values(e, rows, vals, st),
        forall|i: int| 0 <= i < vals.len() ==> identity::plainly_keyed(#[trigger] vals[i]),
    ensures
        over(collect, true, e, rows, env, st) matches Ok(ValV::List(kept)) && over(
            count,
            true,
            e,
            rows,
            env,
            st,
        ) == Ok::<ValV, crate::error::ErrV>(ValV::Integer(kept.len() as i64)) && (forall|i: int|
            0 <= i < kept.len() ==> present(vals).contains(#[trigger] kept[i])) && (forall|
            i: int,
            j: int,
        |
            0 <= i < j < kept.len() ==> !identity::alike(#[trigger] kept[i], #[trigger] kept[j]))
            && forall|i: int|
            0 <= i < present(vals).len() ==> is_like_one(#[trigger] present(vals)[i], kept),
{
    lemma_names();
    assert(is_plain("count"@) && is_plain("collect"@));
    lemma_over(count, true, e, rows, vals, env, st);
    lemma_over(collect, true, e, rows, vals, env, st);
    let old = present(vals);
    assert forall|i: int| 0 <= i < old.len() implies identity::plainly_keyed(#[trigger] old[i]) by {
        lemma_present_from(vals, i);
    }
    lemma_distinct_values(old, 0, seq![], seq![]);
}

proof fn lemma_present_from(vals: Seq<ValV>, i: int)
    requires
        0 <= i < present(vals).len(),
    ensures
        vals.contains(present(vals)[i]),
    decreases vals.len(),
{
    reveal_with_fuel(Seq::filter, 2);
    if vals.len() > 0 {
        let d = vals.drop_last();
        if i < present(d).len() {
            lemma_present_from(d, i);
            let k = choose|k: int| 0 <= k < d.len() && d[k] == present(d)[i];
            assert(vals[k] == present(vals)[i]);
        } else {
            assert(vals[vals.len() - 1] == present(vals)[i]);
        }
    }
}

proof fn lemma_distinct_values(vals: Seq<ValV>, i: int, seen: Seq<Seq<char>>, acc: Seq<ValV>)
    requires
        0 <= i <= vals.len(),
        forall|k: int| 0 <= k < vals.len() ==> identity::plainly_keyed(#[trigger] vals[k]),
        seen.len() == acc.len(),
        forall|k: int|
            0 <= k < acc.len() ==> #[trigger] seen[k] == keying::stable_key(acc[k])
                && identity::plainly_keyed(acc[k]),
        forall|k: int| 0 <= k < acc.len() ==> vals.contains(#[trigger] acc[k]),
        forall|a: int, b: int|
            0 <= a < b < acc.len() ==> !identity::alike(#[trigger] acc[a], #[trigger] acc[b]),
        forall|k: int|
            0 <= k < i ==> is_like_one(#[trigger] vals[k], acc),
    ensures
        ({
            let kept = aggregate::distinct_values(vals, i, seen, acc);
            &&& forall|k: int| 0 <= k < kept.len() ==> vals.contains(#[trigger] kept[k])
            &&& forall|a: int, b: int|
                0 <= a < b < kept.len() ==> !identity::alike(#[trigger] kept[a], #[trigger] kept[b])
            &&& forall|k: int|
                0 <= k < vals.len() ==> is_like_one(#[trigger] vals[k], kept)
        }),
    decreases vals.len() - i,
{
    if i < vals.len() {
        let k = keying::stable_key(vals[i]);
        if text::has_text(seen, k) {
            let j = choose|j: int| 0 <= j < seen.len() && #[trigger] seen[j] == k;
            identity::lemma_key_tells(acc[j], vals[i]);
            assert(is_like_one(vals[i], acc));
            lemma_distinct_values(vals, i + 1, seen, acc);
        } else {
            let now = acc.push(vals[i]);
            let keys = seen.push(k);
            assert forall|a: int, b: int| 0 <= a < b < now.len() implies !identity::alike(
                #[trigger] now[a],
                #[trigger] now[b],
            ) by {
                if b == acc.len() {
                    if identity::alike(acc[a], vals[i]) {
                        identity::lemma_alike_key(acc[a], vals[i]);
                        assert(seen[a] == k);
                    }
                } else {
                    assert(!identity::alike(acc[a], acc[b]));
                }
            }
            assert forall|m: int| 0 <= m < i + 1 implies is_like_one(#[trigger] vals[m], now) by {
                if m < i {
                    assert(is_like_one(vals[m], acc));
                    let j = choose|j: int|
                        0 <= j < acc.len() && identity::alike(#[trigger] acc[j], vals[m]);
                    assert(identity::alike(now[j], vals[m]));
                } else {
                    identity::lemma_key_tells(vals[i], vals[i]);
                    assert(identity::alike(now[acc.len() as int], vals[m]));
                }
            }
            assert forall|m: int| 0 <= m < now.len() implies vals.contains(#[trigger] now[m]) by {
                if m == acc.len() {
                    assert(vals[i] == now[m]);
                }
            }
            lemma_distinct_values(vals, i + 1, keys, now);
        }
    }
}

} // verus!
