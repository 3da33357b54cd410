//! What the forms of expressions give that choose, collect or test.
use crate::assoc;
use crate::ast::{CaseV, CompOp, ExprV, FilterPredicateKind, LitV};
use crate::combining;
use crate::error::ErrV;
use crate::functions::{self, Func};
use crate::operators;
use crate::ops;
use crate::semantics::{self, EnvV};
use crate::store::StoreV;
use crate::text;
use crate::value::{RecV, ValV};
use vstd::prelude::*;

verus! {

// ---------------------------------------------------------------------------
// Variables and literals
// ---------------------------------------------------------------------------

/// A variable has the value that the row binds it to, a parameter that which was
/// given, and both are null where there is none.
pub proof fn lemma_names(x: Seq<char>, rec: RecV, env: EnvV, st: StoreV)
    ensures
        semantics::eval(ExprV::Variable(x), rec, env, st) == Ok::<ValV, ErrV>(
            combining::held(rec, x),
        ),
        semantics::eval(ExprV::Parameter(x), rec, env, st) == Ok::<ValV, ErrV>(
            combining::held(env.params, x),
        ),
{
    reveal_with_fuel(semantics::eval, 2);
}

/// Expressions have values, one by one.
pub open spec fn all_mean(
    es: Seq<ExprV>,
    vs: Seq<ValV>,
    rec: RecV,
    env: EnvV,
    st: StoreV,
) -> bool {
    es.len() == vs.len() && forall|i: int|
        0 <= i < es.len() ==> operators::means(#[trigger] es[i], vs[i], rec, env, st)
}

/// A list literal is the list of the values of its items, in order.
pub proof fn lemma_list(es: Seq<ExprV>, vs: Seq<ValV>, rec: RecV, env: EnvV, st: StoreV)
    requires
        all_mean(es, vs, rec, env, st),
    ensures
        semantics::eval(ExprV::Literal(LitV::List(es)), rec, env, st) == Ok::<ValV, ErrV>(
            ValV::List(vs),
        ),
{
    let l = LitV::List(es);
    let e = ExprV::Literal(l);
    lemma_all(es, vs, 0, seq![], rec, env, st);
    assert(vs.take(0) =~= seq![]);
    assert(semantics::eval(e, rec, env, st) == semantics::eval_parts(e, rec, env, st));
    assert(semantics::eval_parts(e, rec, env, st) == semantics::eval_literal(l, rec, env, st));
    assert(semantics::eval_literal(l, rec, env, st) == Ok::<ValV, ErrV>(ValV::List(vs)));
}

proof fn lemma_all(
    es: Seq<ExprV>,
    vs: Seq<ValV>,
    i: int,
    acc: Seq<ValV>,
    rec: RecV,
    env: EnvV,
    st: StoreV,
)
    requires
        all_mean(es, vs, rec, env, st),
        0 <= i <= es.len(),
        acc == vs.take(i),
    ensures
        semantics::eval_all(es, es.len() as int, i, acc, rec, env, st) == Ok::<Seq<ValV>, ErrV>(vs),
    decreases es.len() - i,
{
    if i < es.len() {
        operators::lemma_means(es[i], vs[i], rec, env, st, i);
        assert(acc.push(vs[i]) =~= vs.take(i + 1));
        lemma_all(es, vs, i + 1, acc.push(vs[i]), rec, env, st);
    } else {
        assert(vs.take(i) =~= vs);
    }
}

/// `coalesce` gives the first of its arguments that is not null, and null where
/// all are.
pub proof fn lemma_coalesce(
    name: Seq<char>,
    es: Seq<ExprV>,
    vs: Seq<ValV>,
    d: int,
    rec: RecV,
    env: EnvV,
    st: StoreV,
)
    requires
        functions::function_named(text::lower_text(name)) == Func::Coalesce,
        !functions::is_aggregate(text::lower_text(name)),
        all_mean(es, vs, rec, env, st),
        0 <= d <= vs.len(),
        forall|i: int| 0 <= i < d ==> #[trigger] vs[i] is Null,
        d < vs.len() ==> !(vs[d] is Null),
    ensures
        semantics::eval(
            ExprV::FunctionCall { name, distinct: false, args: es },
            rec,
            env,
            st,
        ) == Ok::<ValV, ErrV>(
            if d < vs.len() {
                vs[d]
            } else {
                ValV::Null
            },
        ),
{
    let e = ExprV::FunctionCall { name, distinct: false, args: es };
    lemma_coalesced(es, vs, 0, d, rec, env, st);
    assert(semantics::eval(e, rec, env, st) == semantics::eval_parts(e, rec, env, st));
    assert(semantics::eval_parts(e, rec, env, st) == semantics::eval_call(
        name,
        false,
        es,
        rec,
        env,
        st,
    ));
}

proof fn lemma_coalesced(
    es: Seq<ExprV>,
    vs: Seq<ValV>,
    i: int,
    d: int,
    rec: RecV,
    env: EnvV,
    st: StoreV,
)
    requires
        all_mean(es, vs, rec, env, st),
        0 <= i <= d <= vs.len(),
        forall|k: int| 0 <= k < d ==> #[trigger] vs[k] is Null,
        d < vs.len() ==> !(vs[d] is Null),
    ensures
        semantics::coalesced(es, i, rec, env, st) == Ok::<ValV, ErrV>(
            if d < vs.len() {
                vs[d]
            } else {
                ValV::Null
            },
        ),
    decreases d - i,
{
    if i < es.len() {
        operators::lemma_means(es[i], vs[i], rec, env, st, i);
        if i < d {
            lemma_coalesced(es, vs, i + 1, d, rec, env, st);
        }
    }
}

// ---------------------------------------------------------------------------
// CASE
// ---------------------------------------------------------------------------

/// The alternatives of CASE up to the `d`-th have conditions with values.
pub open spec fn whens_mean(
    cs: Seq<CaseV>,
    ws: Seq<ValV>,
    rec: RecV,
    env: EnvV,
    st: StoreV,
) -> bool {
    cs.len() == ws.len() && forall|i: int|
        0 <= i < cs.len() ==> operators::means((#[trigger] cs[i]).when, ws[i], rec, env, st)
}

/// An alternative applies: its condition is true or, where CASE has a subject,
/// equals it.
pub open spec fn applies(subject: Option<ValV>, w: ValV) -> bool {
    match subject {
        None => w == ValV::Boolean(true),
        Some(s) => ops::comparison(s, CompOp::Eq, w) == ValV::Boolean(true),
    }
}

/// CASE gives the value of the first alternative that applies. Where none does
/// it gives that of ELSE, or null.
pub proof fn lemma_case(
    subject: Option<Box<ExprV>>,
    s: Option<ValV>,
    cs: Seq<CaseV>,
    ws: Seq<ValV>,
    default: Option<Box<ExprV>>,
    d: int,
    v: ValV,
    rec: RecV,
    env: EnvV,
    st: StoreV,
)
    requires
        whens_mean(cs, ws, rec, env, st),
        match (subject, s) {
            (Some(e), Some(w)) => operators::means(*e, w, rec, env, st),
            (None, None) => true,
            _ => false,
        },
        0 <= d <= cs.len(),
        forall|i: int| 0 <= i < d ==> !applies(s, #[trigger] ws[i]),
        d < cs.len() ==> applies(s, ws[d]) && operators::means(cs[d].then_expr, v, rec, env, st),
        d == cs.len() ==> match default {
            Some(e) => operators::means(*e, v, rec, env, st),
            None => v == ValV::Null,
        },
    ensures
        semantics::eval(
            ExprV::Case { operand: subject, alternatives: cs, default },
            rec,
            env,
            st,
        ) == Ok::<ValV, ErrV>(v),
{
    let e = ExprV::Case { operand: subject, alternatives: cs, default };
    if let Some(x) = subject {
        operators::lemma_means(*x, s->0, rec, env, st, 0);
    }
    assert(semantics::eval_opt(subject, rec, env.at(0), st) == Ok::<Option<ValV>, ErrV>(s));
    lemma_cases(s, cs, ws, 0, d, v, rec, env, st);
    if let Some(x) = default {
        if d == cs.len() {
            operators::lemma_means(*x, v, rec, env, st, 2);
            assert(semantics::eval_opt(default, rec, env.at(2), st) == Ok::<Option<ValV>, ErrV>(
                Some(v),
            ));
        }
    } else {
        assert(semantics::eval_opt(default, rec, env.at(2), st) == Ok::<Option<ValV>, ErrV>(None));
    }
    assert(semantics::eval(e, rec, env, st) == semantics::eval_parts(e, rec, env, st));
    assert(semantics::eval_parts(e, rec, env, st) == Ok::<ValV, ErrV>(v));
}

proof fn lemma_cases(
    s: Option<ValV>,
    cs: Seq<CaseV>,
    ws: Seq<ValV>,
    i: int,
    d: int,
    v: ValV,
    rec: RecV,
    env: EnvV,
    st: StoreV,
)
    requires
        whens_mean(cs, ws, rec, env, st),
        0 <= i <= d <= cs.len(),
        forall|k: int| 0 <= k < d ==> !applies(s, #[trigger] ws[k]),
        d < cs.len() ==> applies(s, ws[d]) && operators::means(cs[d].then_expr, v, rec, env, st),
    ensures
        semantics::eval_cases(s, cs, i, rec, env.at(1), st) == Ok::<Option<ValV>, ErrV>(
            if d < cs.len() {
                Some(v)
            } else {
                None
            },
        ),
    decreases d - i,
{
    if i < cs.len() {
        let one = env.at(1);
        operators::lemma_means(cs[i].when, ws[i], rec, env, st, 1);
        operators::lemma_means(cs[i].when, ws[i], rec, one, st, i);
        operators::lemma_means(cs[i].when, ws[i], rec, one.at(i), st, 0);
        reveal(ops::comparison);
        assert(semantics::case_applies(s, ws[i]) == applies(s, ws[i]));
        if i < d {
            lemma_cases(s, cs, ws, i + 1, d, v, rec, env, st);
        } else {
            operators::lemma_means(cs[i].then_expr, v, rec, env, st, 1);
            operators::lemma_means(cs[i].then_expr, v, rec, one, st, i);
            operators::lemma_means(cs[i].then_expr, v, rec, one.at(i), st, 1);
        }
    }
}

// ---------------------------------------------------------------------------
// Lists
// ---------------------------------------------------------------------------

/// The values of an expression where a variable goes through a list.
pub open spec fn through(
    e: ExprV,
    x: Seq<char>,
    items: Seq<ValV>,
    vs: Seq<ValV>,
    rec: RecV,
    st: StoreV,
) -> bool {
    items.len() == vs.len() && forall|i: int, d: EnvV|
        0 <= i < items.len() ==> #[trigger] semantics::eval(
            e,
            assoc::bind(rec, x, items[i]),
            d,
            st,
        ) == Ok::<ValV, ErrV>(vs[i])
}

/// `[x IN xs WHERE p | f]` gives the values of `f` for just those items for which
/// `p` is true, in the order of the list; without `f` the items themselves, and
/// without `p` all of them.
pub proof fn lemma_comprehension(
    x: Seq<char>,
    list: ExprV,
    predicate: Option<Box<ExprV>>,
    map_expr: Option<Box<ExprV>>,
    items: Seq<ValV>,
    ps: Seq<ValV>,
    fs: Seq<ValV>,
    rec: RecV,
    env: EnvV,
    st: StoreV,
) -> (picks: Seq<int>)
    requires
        operators::means(list, ValV::List(items), rec, env, st),
        match predicate {
            Some(p) => through(*p, x, items, ps, rec, st),
            None => ps.len() == items.len() && forall|i: int|
                0 <= i < ps.len() ==> #[trigger] ps[i] == ValV::Boolean(true),
        },
        match map_expr {
            Some(f) => through(*f, x, items, fs, rec, st),
            None => fs == items,
        },
    ensures
        forall|a: int, b: int| 0 <= a < b < picks.len() ==> #[trigger] picks[a] < #[trigger] picks[b],
        forall|i: int| #[trigger]
            picks.contains(i) <==> 0 <= i < items.len() && ps[i] == ValV::Boolean(true),
        semantics::eval(
            ExprV::ListComprehension { variable: x, list: Box::new(list), predicate, map_expr },
            rec,
            env,
            st,
        ) matches Ok(ValV::List(out)) && out.len() == picks.len() && forall|k: int|
            0 <= k < picks.len() ==> #[trigger] out[k] == fs[picks[k]],
{
    let e = ExprV::ListComprehension { variable: x, list: Box::new(list), predicate, map_expr };
    operators::lemma_means(list, ValV::List(items), rec, env, st, 0);
    let picks = lemma_comprehended(e, items, ps, fs, 0, seq![], seq![], rec, env.at(1), st);
    assert(semantics::eval(e, rec, env, st) == semantics::eval_parts(e, rec, env, st));
    assert(semantics::eval_parts(e, rec, env, st) == semantics::comprehended(
        e,
        items,
        0,
        seq![],
        rec,
        env.at(1),
        st,
    ));
    picks
}

proof fn lemma_comprehended(
    e: ExprV,
    items: Seq<ValV>,
    ps: Seq<ValV>,
    fs: Seq<ValV>,
    i: int,
    acc: Seq<ValV>,
    before: Seq<int>,
    rec: RecV,
    env: EnvV,
    st: StoreV,
) -> (picks: Seq<int>)
    requires
        e is ListComprehension,
        match e->ListComprehension_predicate {
            Some(p) => through(*p, e->ListComprehension_variable, items, ps, rec, st),
            None => ps.len() == items.len() && forall|k: int|
                0 <= k < ps.len() ==> #[trigger] ps[k] == ValV::Boolean(true),
        },
        match e->map_expr {
            Some(f) => through(*f, e->ListComprehension_variable, items, fs, rec, st),
            None => fs == items,
        },
        0 <= i <= items.len(),
        acc.len() == before.len(),
        forall|a: int, b: int|
            0 <= a < b < before.len() ==> #[trigger] before[a] < #[trigger] before[b],
        forall|k: int| #[trigger]
            before.contains(k) <==> 0 <= k < i && ps[k] == ValV::Boolean(true),
        forall|k: int| 0 <= k < before.len() ==> #[trigger] acc[k] == fs[before[k]],
    ensures
        forall|a: int, b: int| 0 <= a < b < picks.len() ==> #[trigger] picks[a] < #[trigger] picks[b],
        forall|k: int| #[trigger]
            picks.contains(k) <==> 0 <= k < items.len() && ps[k] == ValV::Boolean(true),
        semantics::comprehended(e, items, i, acc, rec, env, st) matches Ok(ValV::List(out))
            && out.len() == picks.len() && forall|k: int|
            0 <= k < picks.len() ==> #[trigger] out[k] == fs[picks[k]],
    decreases items.len() - i,
{
    if i < items.len() {
        let x = e->ListComprehension_variable;
        let inner = assoc::bind(rec, x, items[i]);
        let d = env.at(i);
        let p = e->ListComprehension_predicate;
        let f = e->map_expr;
        if let Some(q) = p {
            assert(semantics::eval(*q, inner, d.at(0), st) == Ok::<ValV, ErrV>(ps[i]));
            assert(semantics::eval_opt(p, inner, d.at(0), st) == Ok::<Option<ValV>, ErrV>(
                Some(ps[i]),
            ));
        } else {
            assert(ps[i] == ValV::Boolean(true));
            assert(semantics::eval_opt(p, inner, d.at(0), st) == Ok::<Option<ValV>, ErrV>(None));
        }
        if let Some(q) = f {
            assert(semantics::eval(*q, inner, d.at(1), st) == Ok::<ValV, ErrV>(fs[i]));
            assert(semantics::eval_opt(f, inner, d.at(1), st) == Ok::<Option<ValV>, ErrV>(
                Some(fs[i]),
            ));
        } else {
            assert(semantics::eval_opt(f, inner, d.at(1), st) == Ok::<Option<ValV>, ErrV>(None));
        }
        assert(semantics::comprehended_item(e, items[i], rec, d, st) == Ok::<Option<ValV>, ErrV>(
            if ps[i] == ValV::Boolean(true) {
                Some(fs[i])
            } else {
                None
            },
        ));
        if ps[i] == ValV::Boolean(true) {
            let now = before.push(i);
            assert forall|k: int| #[trigger]
                now.contains(k) <==> 0 <= k < i + 1 && ps[k] == ValV::Boolean(true) by {
                if before.contains(k) {
                    let a = choose|a: int| 0 <= a < before.len() && before[a] == k;
                    assert(now[a] == k);
                }
                if k == i {
                    assert(now[before.len() as int] == k);
                }
                if now.contains(k) && k != i {
                    let a = choose|a: int| 0 <= a < now.len() && now[a] == k;
                    assert(before[a] == k);
                    assert(before.contains(k));
                }
            }
            assert forall|a: int, b: int| 0 <= a < b < now.len() implies #[trigger] now[a]
                < #[trigger] now[b] by {
                if b == before.len() {
                    assert(before.contains(before[a]));
                }
            }
            lemma_comprehended(e, items, ps, fs, i + 1, acc.push(fs[i]), now, rec, env, st)
        } else {
            assert forall|k: int| #[trigger]
                before.contains(k) <==> 0 <= k < i + 1 && ps[k] == ValV::Boolean(true) by {}
            lemma_comprehended(e, items, ps, fs, i + 1, acc, before, rec, env, st)
        }
    } else {
        before
    }
}

/// How often a value is among others.
pub open spec fn count_of(vs: Seq<ValV>, v: ValV) -> int
    decreases vs.len(),
{
    if vs.len() == 0 {
        0
    } else {
        count_of(vs.drop_last(), v) + if vs.last() == v {
            1int
        } else {
            0int
        }
    }
}

/// `any`, `all`, `none` and `single` say whether a condition is true of some, of
/// each, of no and of just one item of a list. Where nulls leave it open they
/// are null.
pub proof fn lemma_list_tests(
    kind: FilterPredicateKind,
    x: Seq<char>,
    list: ExprV,
    predicate: ExprV,
    items: Seq<ValV>,
    ps: Seq<ValV>,
    rec: RecV,
    env: EnvV,
    st: StoreV,
)
    requires
        operators::means(list, ValV::List(items), rec, env, st),
        through(predicate, x, items, ps, rec, st),
    ensures
        ({
            let said = semantics::eval(
                ExprV::FilterPredicate {
                    kind,
                    variable: x,
                    list: Box::new(list),
                    predicate: Box::new(predicate),
                },
                rec,
                env,
                st,
            );
            let trues = count_of(ps, ValV::Boolean(true));
            let nulls = count_of(ps, ValV::Null);
            let open = if nulls > 0 {
                ValV::Null
            } else {
                ValV::Boolean(false)
            };
            said == Ok::<ValV, ErrV>(
                match kind {
                    FilterPredicateKind::Any => if trues > 0 {
                        ValV::Boolean(true)
                    } else {
                        open
                    },
                    FilterPredicateKind::All => if trues == items.len() {
                        ValV::Boolean(true)
                    } else {
                        open
                    },
                    FilterPredicateKind::NoneOf => if trues > 0 {
                        ValV::Boolean(false)
                    } else if nulls > 0 {
                        ValV::Null
                    } else {
                        ValV::Boolean(true)
                    },
                    FilterPredicateKind::Single => if trues > 1 {
                        ValV::Boolean(false)
                    } else if trues == 1 && nulls == 0 {
                        ValV::Boolean(true)
                    } else {
                        open
                    },
                },
            )
        }),
{
    let e = ExprV::FilterPredicate {
        kind,
        variable: x,
        list: Box::new(list),
        predicate: Box::new(predicate),
    };
    operators::lemma_means(list, ValV::List(items), rec, env, st, 0);
    assert(ps.take(0) =~= seq![]);
    lemma_tested(e, items, ps, 0, rec, env.at(1), st);
    reveal(semantics::of_tested);
    assert(semantics::eval(e, rec, env, st) == semantics::eval_parts(e, rec, env, st));
    let trues = count_of(ps, ValV::Boolean(true));
    let nulls = count_of(ps, ValV::Null);
    lemma_count_bounds(ps, ValV::Boolean(true));
    lemma_count_bounds(ps, ValV::Null);
    assert(semantics::eval_parts(e, rec, env, st) == Ok::<ValV, ErrV>(
        semantics::of_tested(kind, trues, nulls > 0, items.len() as int),
    ));
}

proof fn lemma_count_bounds(vs: Seq<ValV>, v: ValV)
    ensures
        0 <= count_of(vs, v) <= vs.len(),
    decreases vs.len(),
{
    if vs.len() > 0 {
        lemma_count_bounds(vs.drop_last(), v);
    }
}

proof fn lemma_tested(
    e: ExprV,
    items: Seq<ValV>,
    ps: Seq<ValV>,
    i: int,
    rec: RecV,
    env: EnvV,
    st: StoreV,
)
    requires
        e is FilterPredicate,
        through(
            *e->FilterPredicate_predicate,
            e->FilterPredicate_variable,
            items,
            ps,
            rec,
            st,
        ),
        0 <= i <= items.len(),
    ensures
        semantics::tested(
            e,
            items,
            i,
            count_of(ps.take(i), ValV::Boolean(true)),
            count_of(ps.take(i), ValV::Null) > 0,
            rec,
            env,
            st,
        ) == Ok::<(int, bool), ErrV>(
            (count_of(ps, ValV::Boolean(true)), count_of(ps, ValV::Null) > 0),
        ),
    decreases items.len() - i,
{
    if i < items.len() {
        assert(semantics::eval(
            *e->FilterPredicate_predicate,
            assoc::bind(rec, e->FilterPredicate_variable, items[i]),
            env.at(i),
            st,
        ) == Ok::<ValV, ErrV>(ps[i]));
        assert(ps.take(i + 1).drop_last() =~= ps.take(i));
        assert(ps.take(i + 1).last() == ps[i]);
        lemma_count_bounds(ps.take(i), ValV::Null);
        assert(ps[i] is Null <==> ps[i] == ValV::Null);
        lemma_tested(e, items, ps, i + 1, rec, env, st);
    } else {
        assert(ps.take(i) =~= ps);
    }
}

/// `reduce` goes through a list from its start: each value of the accumulator
/// follows from the one before it and the next item.
pub proof fn lemma_reduce(
    e: ExprV,
    items: Seq<ValV>,
    states: Seq<ValV>,
    rec: RecV,
    env: EnvV,
    st: StoreV,
)
    requires
        e is Reduce,
        operators::means(*e->Reduce_list, ValV::List(items), rec, env, st),
        states.len() == items.len() + 1,
        operators::means(*e->init, states[0], rec, env, st),
        forall|i: int, d: EnvV|
            0 <= i < items.len() ==> #[trigger] semantics::eval(
                *e->body,
                assoc::bind(
                    assoc::bind(rec, e->accumulator, states[i]),
                    e->Reduce_variable,
                    items[i],
                ),
                d,
                st,
            ) == Ok::<ValV, ErrV>(states[i + 1]),
    ensures
        semantics::eval(e, rec, env, st) == Ok::<ValV, ErrV>(states[items.len() as int]),
{
    operators::lemma_means(*e->Reduce_list, ValV::List(items), rec, env, st, 0);
    operators::lemma_means(*e->init, states[0], rec, env, st, 1);
    lemma_reduced(e, items, states, 0, rec, env.at(2), st);
    assert(semantics::eval(e, rec, env, st) == semantics::eval_parts(e, rec, env, st));
    assert(semantics::eval_parts(e, rec, env, st) == semantics::reduced(
        e,
        items,
        0,
        states[0],
        rec,
        env.at(2),
        st,
    ));
}

proof fn lemma_reduced(
    e: ExprV,
    items: Seq<ValV>,
    states: Seq<ValV>,
    i: int,
    rec: RecV,
    env: EnvV,
    st: StoreV,
)
    requires
        e is Reduce,
        states.len() == items.len() + 1,
        0 <= i <= items.len(),
        forall|k: int, d: EnvV|
            0 <= k < items.len() ==> #[trigger] semantics::eval(
                *e->body,
                assoc::bind(
                    assoc::bind(rec, e->accumulator, states[k]),
                    e->Reduce_variable,
                    items[k],
                ),
                d,
                st,
            ) == Ok::<ValV, ErrV>(states[k + 1]),
    ensures
        semantics::reduced(e, items, i, states[i], rec, env, st) == Ok::<ValV, ErrV>(
            states[items.len() as int],
        ),
    decreases items.len() - i,
{
    if i < items.len() {
        let d = env.at(i);
        assert(semantics::eval(
            *e->body,
            assoc::bind(
                assoc::bind(rec, e->accumulator, states[i]),
                e->Reduce_variable,
                items[i],
            ),
            d,
            st,
        ) == Ok::<ValV, ErrV>(states[i + 1]));
        assert(semantics::reduced_item(e, items[i], states[i], rec, d, st) == Ok::<ValV, ErrV>(
            states[i + 1],
        ));
        lemma_reduced(e, items, states, i + 1, rec, env, st);
    }
}

} // verus!
