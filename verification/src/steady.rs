//! Expressions without random numbers.
//!
//! The value of an expression in which `rand` is not called does not depend on
//! the state from which random numbers are drawn.
use crate::aggregate;
use crate::assoc;
use crate::ast::{CaseV, ChainV, ExprV, KeyV, LitV, NodePatV, PatternV};
use crate::functions::{self, Func};
use crate::ops;
use crate::semantics::{self, EnvV};
use crate::store::{self, StoreV};
use crate::text;
use crate::value::{EdgeV, NodeV, PropsV, RecV, ValV};
use vstd::prelude::*;

verus! {

/// Two surroundings that differ at most in the state from which random numbers
/// are drawn.
pub open spec fn same_but_seed(a: EnvV, b: EnvV) -> bool {
    a.params == b.params && a.answers == b.answers && a.group == b.group
}

// ---------------------------------------------------------------------------
// No call of `rand`
// ---------------------------------------------------------------------------

/// An expression holds no call of `rand`.
pub open spec fn steady(e: ExprV) -> bool
    decreases e, 1nat,
{
    match e {
        ExprV::Literal(l) => steady_literal(l),
        ExprV::Variable(_) => true,
        ExprV::Parameter(_) => true,
        ExprV::Property(x, _) => steady(*x),
        ExprV::BinaryOp { left, right, .. } => steady(*left) && steady(*right),
        ExprV::UnaryOp { operand, .. } => steady(*operand),
        ExprV::Comparison { left, right, .. } => steady(*left) && steady(*right),
        ExprV::And(left, right) => steady(*left) && steady(*right),
        ExprV::Or(left, right) => steady(*left) && steady(*right),
        ExprV::Xor(left, right) => steady(*left) && steady(*right),
        ExprV::Not(x) => steady(*x),
        ExprV::IsNull(x) => steady(*x),
        ExprV::IsNotNull(x) => steady(*x),
        ExprV::FunctionCall { name, args, .. } => functions::function_named(text::lower_text(name))
            != Func::Rand && all_steady(args),
        ExprV::StringOp { left, right, .. } => steady(*left) && steady(*right),
        ExprV::RegexMatch { expr, pattern } => steady(*expr) && steady(*pattern),
        ExprV::In { expr, list } => steady(*expr) && steady(*list),
        ExprV::DynamicProperty { expr, key } => steady(*expr) && steady(*key),
        ExprV::ListSlice { expr, start, end } => steady(*expr) && steady_opt(start) && steady_opt(
            end,
        ),
        ExprV::Case { operand, alternatives, default } => steady_opt(operand) && steady_cases(
            alternatives,
        ) && steady_opt(default),
        ExprV::ListComprehension { list, predicate, map_expr, .. } => steady(*list) && steady_opt(
            predicate,
        ) && steady_opt(map_expr),
        ExprV::FilterPredicate { list, predicate, .. } => steady(*list) && steady(*predicate),
        ExprV::Reduce { init, list, body, .. } => steady(*init) && steady(*list) && steady(*body),
        ExprV::Exists { pattern } => steady_pattern(*pattern),
    }
}

pub open spec fn steady_opt(o: Option<Box<ExprV>>) -> bool
    decreases o, 0nat,
{
    match o {
        Some(e) => steady(*e),
        None => true,
    }
}

pub open spec fn all_steady(es: Seq<ExprV>) -> bool
    decreases es, 0nat,
{
    forall|i: int| 0 <= i < es.len() ==> steady(#[trigger] es[i])
}

pub open spec fn steady_cases(cs: Seq<CaseV>) -> bool
    decreases cs, 0nat,
{
    forall|i: int|
        0 <= i < cs.len() ==> steady((#[trigger] cs[i]).when) && steady(cs[i].then_expr)
}

pub open spec fn steady_literal(l: LitV) -> bool
    decreases l, 0nat,
{
    match l {
        LitV::List(items) => all_steady(items),
        LitV::Dict(entries) => steady_entries(entries),
        _ => true,
    }
}

pub open spec fn steady_key(k: KeyV) -> bool
    decreases k, 0nat,
{
    match k {
        KeyV::Identifier(_) => true,
        KeyV::Expression(e) => steady(*e),
    }
}

pub open spec fn steady_entries(es: Seq<(KeyV, ExprV)>) -> bool
    decreases es, 0nat,
{
    forall|i: int| 0 <= i < es.len() ==> steady_key((#[trigger] es[i]).0) && steady(es[i].1)
}

pub open spec fn steady_props(o: Option<Seq<(KeyV, ExprV)>>) -> bool
    decreases o, 0nat,
{
    match o {
        Some(es) => steady_entries(es),
        None => true,
    }
}

pub open spec fn steady_step(s: ChainV) -> bool
    decreases s, 0nat,
{
    steady_props(s.relationship.properties) && steady_props(s.node.properties)
}

pub open spec fn steady_chain(chain: Seq<ChainV>) -> bool
    decreases chain, 0nat,
{
    forall|i: int| 0 <= i < chain.len() ==> steady_step(#[trigger] chain[i])
}

pub open spec fn steady_pattern(p: PatternV) -> bool
    decreases p, 0nat,
{
    match p {
        PatternV::Node(np) => steady_props(np.properties),
        PatternV::Chain { start, elements } => steady_props(start.properties) && steady_chain(
            elements,
        ),
        PatternV::ShortestPath { start, relationship, end } => steady_props(start.properties)
            && steady_props(relationship.properties) && steady_props(end.properties),
        PatternV::AllShortestPaths { start, relationship, end } => steady_props(start.properties)
            && steady_props(relationship.properties) && steady_props(end.properties),
    }
}

// ---------------------------------------------------------------------------
// One value
// ---------------------------------------------------------------------------

/// An expression without random numbers has one value, whatever the state from
/// which they are drawn.
#[verifier::spinoff_prover]
pub proof fn lemma_eval(e: ExprV, rec: RecV, a: EnvV, b: EnvV, st: StoreV)
    requires
        same_but_seed(a, b),
        steady(e),
    ensures
        semantics::eval(e, rec, a, st) == semantics::eval(e, rec, b, st),
    decreases e, 4nat, 0nat,
{
    match e {
        ExprV::Literal(l) => {
            lemma_literal(l, rec, a, b, st);
        },
        ExprV::Variable(_) => {},
        ExprV::Parameter(_) => {},
        ExprV::Property(x, _) => {
            lemma_eval(*x, rec, a.at(0), b.at(0), st);
        },
        ExprV::BinaryOp { left, right, .. } => {
            lemma_eval(*left, rec, a.at(0), b.at(0), st);
            lemma_eval(*right, rec, a.at(1), b.at(1), st);
        },
        ExprV::UnaryOp { operand, .. } => {
            lemma_eval(*operand, rec, a.at(0), b.at(0), st);
        },
        ExprV::Comparison { left, right, .. } => {
            lemma_eval(*left, rec, a.at(0), b.at(0), st);
            lemma_eval(*right, rec, a.at(1), b.at(1), st);
        },
        ExprV::And(left, right) => {
            lemma_eval(*left, rec, a.at(0), b.at(0), st);
            lemma_eval(*right, rec, a.at(1), b.at(1), st);
        },
        ExprV::Or(left, right) => {
            lemma_eval(*left, rec, a.at(0), b.at(0), st);
            lemma_eval(*right, rec, a.at(1), b.at(1), st);
        },
        ExprV::Xor(left, right) => {
            lemma_eval(*left, rec, a.at(0), b.at(0), st);
            lemma_eval(*right, rec, a.at(1), b.at(1), st);
        },
        ExprV::Not(operand) => {
            lemma_eval(*operand, rec, a.at(0), b.at(0), st);
        },
        ExprV::IsNull(operand) => {
            lemma_eval(*operand, rec, a.at(0), b.at(0), st);
        },
        ExprV::IsNotNull(operand) => {
            lemma_eval(*operand, rec, a.at(0), b.at(0), st);
        },
        ExprV::FunctionCall { name, distinct, args } => {
            lemma_call(name, distinct, args, rec, a, b, st);
        },
        ExprV::StringOp { left, right, .. } => {
            lemma_eval(*left, rec, a.at(0), b.at(0), st);
            lemma_eval(*right, rec, a.at(1), b.at(1), st);
        },
        ExprV::RegexMatch { expr, pattern } => {
            lemma_eval(*expr, rec, a.at(0), b.at(0), st);
            lemma_eval(*pattern, rec, a.at(1), b.at(1), st);
        },
        ExprV::In { expr, list } => {
            lemma_eval(*expr, rec, a.at(0), b.at(0), st);
            lemma_eval(*list, rec, a.at(1), b.at(1), st);
        },
        ExprV::DynamicProperty { expr, key } => {
            lemma_eval(*expr, rec, a.at(0), b.at(0), st);
            lemma_eval(*key, rec, a.at(1), b.at(1), st);
        },
        ExprV::ListSlice { expr, start, end } => {
            lemma_eval(*expr, rec, a.at(0), b.at(0), st);
            lemma_opt(start, rec, a.at(1), b.at(1), st);
            lemma_opt(end, rec, a.at(2), b.at(2), st);
        },
        ExprV::Case { operand, alternatives, default } => {
            lemma_opt(operand, rec, a.at(0), b.at(0), st);
            match semantics::eval_opt(operand, rec, a.at(0), st) {
                Ok(subject) => {
                    lemma_cases(subject, alternatives, 0, rec, a.at(1), b.at(1), st);
                },
                _ => {},
            }
            lemma_opt(default, rec, a.at(2), b.at(2), st);
        },
        ExprV::ListComprehension { list, .. } => {
            lemma_eval(*list, rec, a.at(0), b.at(0), st);
            match semantics::eval(*list, rec, a.at(0), st) {
                Ok(ValV::List(items)) => {
                    lemma_comprehended(e, items, 0, seq![], rec, a.at(1), b.at(1), st);
                },
                _ => {},
            }
        },
        ExprV::FilterPredicate { list, .. } => {
            lemma_eval(*list, rec, a.at(0), b.at(0), st);
            match semantics::eval(*list, rec, a.at(0), st) {
                Ok(ValV::List(items)) => {
                    lemma_tested(e, items, 0, 0, false, rec, a.at(1), b.at(1), st);
                },
                _ => {},
            }
        },
        ExprV::Reduce { init, list, .. } => {
            lemma_eval(*list, rec, a.at(0), b.at(0), st);
            lemma_eval(*init, rec, a.at(1), b.at(1), st);
            match semantics::both(
                semantics::eval(*list, rec, a.at(0), st),
                semantics::eval(*init, rec, a.at(1), st),
            ) {
                Ok((ValV::List(items), start)) => {
                    lemma_reduced(e, items, 0, start, rec, a.at(2), b.at(2), st);
                },
                _ => {},
            }
        },
        ExprV::Exists { pattern } => {
            lemma_pattern(*pattern, rec, a, b, st);
        },
    }
}

proof fn lemma_opt(o: Option<Box<ExprV>>, rec: RecV, a: EnvV, b: EnvV, st: StoreV)
    requires
        same_but_seed(a, b),
        steady_opt(o),
    ensures
        semantics::eval_opt(o, rec, a, st) == semantics::eval_opt(o, rec, b, st),
    decreases o, 2nat, 0nat,
{
    if let Some(e) = o {
        lemma_eval(*e, rec, a, b, st);
    }
}

proof fn lemma_literal(l: LitV, rec: RecV, a: EnvV, b: EnvV, st: StoreV)
    requires
        same_but_seed(a, b),
        steady_literal(l),
    ensures
        semantics::eval_literal(l, rec, a, st) == semantics::eval_literal(l, rec, b, st),
    decreases l, 2nat, 0nat,
{
    match l {
        LitV::List(items) => {
            lemma_all(items, items.len() as int, 0, seq![], rec, a, b, st);
        },
        LitV::Dict(entries) => {
            lemma_entries(entries, 0, seq![], rec, a, b, st);
        },
        _ => {},
    }
}

proof fn lemma_all(
    items: Seq<ExprV>,
    n: int,
    i: int,
    acc: Seq<ValV>,
    rec: RecV,
    a: EnvV,
    b: EnvV,
    st: StoreV,
)
    requires
        same_but_seed(a, b),
        all_steady(items),
    ensures
        semantics::eval_all(
            items,
            n,
            i,
            acc,
            rec,
            a,
            st,
        ) == semantics::eval_all(
            items,
            n,
            i,
            acc,
            rec,
            b,
            st,
        ),
    decreases items, 1nat, items.len() - i,
{
    if 0 <= i < items.len() {
        lemma_eval(items[i], rec, a.at(i), b.at(i), st);
        match semantics::eval(items[i], rec, a.at(i), st) {
            Ok(v) => {
                lemma_all(items, n, i + 1, acc.push(v), rec, a, b, st);
            },
            _ => {},
        }
    }
}

proof fn lemma_key(k: KeyV, rec: RecV, a: EnvV, b: EnvV, st: StoreV)
    requires
        same_but_seed(a, b),
        steady_key(k),
    ensures
        semantics::eval_key(k, rec, a, st) == semantics::eval_key(k, rec, b, st),
    decreases k, 2nat, 0nat,
{
    if let KeyV::Expression(e) = k {
        lemma_eval(*e, rec, a, b, st);
    }
}

proof fn lemma_entries(
    entries: Seq<(KeyV, ExprV)>,
    i: int,
    acc: RecV,
    rec: RecV,
    a: EnvV,
    b: EnvV,
    st: StoreV,
)
    requires
        same_but_seed(a, b),
        steady_entries(entries),
    ensures
        semantics::eval_entries(
            entries,
            i,
            acc,
            rec,
            a,
            st,
        ) == semantics::eval_entries(
            entries,
            i,
            acc,
            rec,
            b,
            st,
        ),
    decreases entries, 1nat, entries.len() - i,
{
    if 0 <= i < entries.len() {
        lemma_key(entries[i].0, rec, a.at(i).at(0), b.at(i).at(0), st);
        lemma_eval(entries[i].1, rec, a.at(i).at(1), b.at(i).at(1), st);
        match (
            semantics::eval_key(entries[i].0, rec, a.at(i).at(0), st),
            semantics::eval(entries[i].1, rec, a.at(i).at(1), st),
        ) {
            (Ok(k), Ok(v)) => {
                lemma_entries(entries, i + 1, assoc::bind(acc, k, v), rec, a, b, st);
            },
            _ => {},
        }
    }
}

proof fn lemma_call(
    name: Seq<char>,
    distinct: bool,
    args: Seq<ExprV>,
    rec: RecV,
    a: EnvV,
    b: EnvV,
    st: StoreV,
)
    requires
        same_but_seed(a, b),
        all_steady(args),
        functions::function_named(text::lower_text(name)) != Func::Rand,
    ensures
        semantics::eval_call(
            name,
            distinct,
            args,
            rec,
            a,
            st,
        ) == semantics::eval_call(
            name,
            distinct,
            args,
            rec,
            b,
            st,
        ),
    decreases args, 2nat, 0nat,
{
    let f = functions::function_named(text::lower_text(name));
    if a.group is Some && functions::is_aggregate(text::lower_text(name)) {
        lemma_group(
            text::lower_text(name),
            distinct,
            args,
            a.group.unwrap(),
            a.alone(),
            b.alone(),
            st,
        );
    } else if f == Func::Coalesce {
        lemma_coalesced(args, 0, rec, a, b, st);
    } else {
        let n = functions::args_used(f, args.len() as int);
        lemma_all(args, n, 0, seq![], rec, a.at(0), b.at(0), st);
        reveal(functions::apply);
    }
}

proof fn lemma_non_null(
    e: ExprV,
    rows: Seq<RecV>,
    i: int,
    acc: Seq<ValV>,
    a: EnvV,
    b: EnvV,
    st: StoreV,
)
    requires
        same_but_seed(a, b),
        steady(e),
    ensures
        semantics::non_null_values(
            e,
            rows,
            i,
            acc,
            a,
            st,
        ) == semantics::non_null_values(
            e,
            rows,
            i,
            acc,
            b,
            st,
        ),
    decreases e, 5nat, rows.len() - i,
{
    if 0 <= i < rows.len() {
        lemma_eval(e, rows[i], a.at(i), b.at(i), st);
        match semantics::eval(e, rows[i], a.at(i), st) {
            Ok(v) => {
                lemma_non_null(
                    e,
                    rows,
                    i + 1,
                    if v is Null {
                        acc
                    } else {
                        acc.push(v)
                    },
                    a,
                    b,
                    st,
                );
            },
            _ => {},
        }
    }
}

proof fn lemma_group_values(e: ExprV, distinct: bool, rows: Seq<RecV>, a: EnvV, b: EnvV, st: StoreV)
    requires
        same_but_seed(a, b),
        steady(e),
    ensures
        semantics::group_values(
            e,
            distinct,
            rows,
            a,
            st,
        ) == semantics::group_values(
            e,
            distinct,
            rows,
            b,
            st,
        ),
    decreases e, 6nat, 0nat,
{
    lemma_non_null(e, rows, 0, seq![], a, b, st);
}

proof fn lemma_group(
    f: Seq<char>,
    distinct: bool,
    args: Seq<ExprV>,
    rows: Seq<RecV>,
    a: EnvV,
    b: EnvV,
    st: StoreV,
)
    requires
        same_but_seed(a, b),
        all_steady(args),
    ensures
        semantics::over_group(
            f,
            distinct,
            args,
            rows,
            a,
            st,
        ) == semantics::over_group(
            f,
            distinct,
            args,
            rows,
            b,
            st,
        ),
    decreases args, 1nat, 0nat,
{
    if args.len() > 0 {
        lemma_group_values(args[0], false, rows, a.at(0), b.at(0), st);
        lemma_group_values(
            args[0],
            distinct && !aggregate::takes_all(f),
            rows,
            a.at(0),
            b.at(0),
            st,
        );
    }
    if args.len() > 1 {
        lemma_eval(args[1], seq![], a.at(1), b.at(1), st);
    }
}

proof fn lemma_coalesced(args: Seq<ExprV>, i: int, rec: RecV, a: EnvV, b: EnvV, st: StoreV)
    requires
        same_but_seed(a, b),
        all_steady(args),
    ensures
        semantics::coalesced(args, i, rec, a, st) == semantics::coalesced(args, i, rec, b, st),
    decreases args, 1nat, args.len() - i,
{
    if 0 <= i < args.len() {
        lemma_eval(args[i], rec, a.at(i), b.at(i), st);
        lemma_coalesced(args, i + 1, rec, a, b, st);
    }
}

proof fn lemma_cases(
    subject: Option<ValV>,
    alternatives: Seq<CaseV>,
    i: int,
    rec: RecV,
    a: EnvV,
    b: EnvV,
    st: StoreV,
)
    requires
        same_but_seed(a, b),
        steady_cases(alternatives),
    ensures
        semantics::eval_cases(
            subject,
            alternatives,
            i,
            rec,
            a,
            st,
        ) == semantics::eval_cases(
            subject,
            alternatives,
            i,
            rec,
            b,
            st,
        ),
    decreases alternatives, 1nat, alternatives.len() - i,
{
    if 0 <= i < alternatives.len() {
        let c = alternatives[i];
        lemma_eval(c.when, rec, a.at(i).at(0), b.at(i).at(0), st);
        lemma_eval(c.then_expr, rec, a.at(i).at(1), b.at(i).at(1), st);
        lemma_cases(subject, alternatives, i + 1, rec, a, b, st);
    }
}

proof fn lemma_comprehended_item(e: ExprV, item: ValV, rec: RecV, a: EnvV, b: EnvV, st: StoreV)
    requires
        same_but_seed(a, b),
        steady(e),
    ensures
        semantics::comprehended_item(
            e,
            item,
            rec,
            a,
            st,
        ) == semantics::comprehended_item(
            e,
            item,
            rec,
            b,
            st,
        ),
    decreases e, 1nat, 0nat,
{
    match e {
        ExprV::ListComprehension { variable, predicate, map_expr, .. } => {
            let inner = assoc::bind(rec, variable, item);
            lemma_opt(predicate, inner, a.at(0), b.at(0), st);
            lemma_opt(map_expr, inner, a.at(1), b.at(1), st);
        },
        _ => {},
    }
}

proof fn lemma_comprehended(
    e: ExprV,
    items: Seq<ValV>,
    i: int,
    acc: Seq<ValV>,
    rec: RecV,
    a: EnvV,
    b: EnvV,
    st: StoreV,
)
    requires
        same_but_seed(a, b),
        steady(e),
    ensures
        semantics::comprehended(
            e,
            items,
            i,
            acc,
            rec,
            a,
            st,
        ) == semantics::comprehended(
            e,
            items,
            i,
            acc,
            rec,
            b,
            st,
        ),
    decreases e, 2nat, items.len() - i,
{
    if 0 <= i < items.len() {
        lemma_comprehended_item(e, items[i], rec, a.at(i), b.at(i), st);
        match semantics::comprehended_item(e, items[i], rec, a.at(i), st) {
            Ok(None) => {
                lemma_comprehended(e, items, i + 1, acc, rec, a, b, st);
            },
            Ok(Some(v)) => {
                lemma_comprehended(e, items, i + 1, acc.push(v), rec, a, b, st);
            },
            _ => {},
        }
    }
}

proof fn lemma_tested(
    e: ExprV,
    items: Seq<ValV>,
    i: int,
    matching: int,
    has_null: bool,
    rec: RecV,
    a: EnvV,
    b: EnvV,
    st: StoreV,
)
    requires
        same_but_seed(a, b),
        steady(e),
    ensures
        semantics::tested(
            e,
            items,
            i,
            matching,
            has_null,
            rec,
            a,
            st,
        ) == semantics::tested(
            e,
            items,
            i,
            matching,
            has_null,
            rec,
            b,
            st,
        ),
    decreases e, 2nat, items.len() - i,
{
    if 0 <= i < items.len() {
        match e {
            ExprV::FilterPredicate { variable, predicate, .. } => {
                let inner = assoc::bind(rec, variable, items[i]);
                lemma_eval(*predicate, inner, a.at(i), b.at(i), st);
                match semantics::eval(*predicate, inner, a.at(i), st) {
                    Ok(v) => {
                        lemma_tested(
                            e,
                            items,
                            i + 1,
                            if ops::truthy(v) {
                                matching + 1
                            } else {
                                matching
                            },
                            has_null || v is Null,
                            rec,
                            a,
                            b,
                            st,
                        );
                    },
                    _ => {},
                }
            },
            _ => {},
        }
    }
}

proof fn lemma_reduced(
    e: ExprV,
    items: Seq<ValV>,
    i: int,
    acc: ValV,
    rec: RecV,
    a: EnvV,
    b: EnvV,
    st: StoreV,
)
    requires
        same_but_seed(a, b),
        steady(e),
    ensures
        semantics::reduced(
            e,
            items,
            i,
            acc,
            rec,
            a,
            st,
        ) == semantics::reduced(
            e,
            items,
            i,
            acc,
            rec,
            b,
            st,
        ),
    decreases e, 2nat, items.len() - i,
{
    if 0 <= i < items.len() {
        lemma_reduced_item(e, items[i], acc, rec, a.at(i), b.at(i), st);
        match semantics::reduced_item(e, items[i], acc, rec, a.at(i), st) {
            Ok(v) => {
                lemma_reduced(e, items, i + 1, v, rec, a, b, st);
            },
            _ => {},
        }
    }
}

proof fn lemma_reduced_item(
    e: ExprV,
    item: ValV,
    acc: ValV,
    rec: RecV,
    a: EnvV,
    b: EnvV,
    st: StoreV,
)
    requires
        same_but_seed(a, b),
        steady(e),
    ensures
        semantics::reduced_item(
            e,
            item,
            acc,
            rec,
            a,
            st,
        ) == semantics::reduced_item(
            e,
            item,
            acc,
            rec,
            b,
            st,
        ),
    decreases e, 1nat, 0nat,
{
    match e {
        ExprV::Reduce { accumulator, variable, body, .. } => {
            let inner = assoc::bind(assoc::bind(rec, accumulator, acc), variable, item);
            lemma_eval(*body, inner, a, b, st);
        },
        _ => {},
    }
}

proof fn lemma_props(
    props: PropsV,
    entries: Seq<(KeyV, ExprV)>,
    i: int,
    rec: RecV,
    a: EnvV,
    b: EnvV,
    st: StoreV,
)
    requires
        same_but_seed(a, b),
        steady_entries(entries),
    ensures
        semantics::props_match(
            props,
            entries,
            i,
            rec,
            a,
            st,
        ) == semantics::props_match(
            props,
            entries,
            i,
            rec,
            b,
            st,
        ),
    decreases entries, 1nat, entries.len() - i,
{
    if 0 <= i < entries.len() {
        lemma_eval(entries[i].1, rec, a.at(i), b.at(i), st);
        lemma_props(props, entries, i + 1, rec, a, b, st);
    }
}

proof fn lemma_opt_props(
    props: PropsV,
    entries: Option<Seq<(KeyV, ExprV)>>,
    rec: RecV,
    a: EnvV,
    b: EnvV,
    st: StoreV,
)
    requires
        same_but_seed(a, b),
        steady_props(entries),
    ensures
        semantics::opt_props_match(
            props,
            entries,
            rec,
            a,
            st,
        ) == semantics::opt_props_match(
            props,
            entries,
            rec,
            b,
            st,
        ),
    decreases entries, 2nat, 0nat,
{
    if let Some(es) = entries {
        lemma_props(props, es, 0, rec, a, b, st);
    }
}

proof fn lemma_node_fits(n: NodeV, np: NodePatV, rec: RecV, a: EnvV, b: EnvV, st: StoreV)
    requires
        same_but_seed(a, b),
        steady_props(np.properties),
    ensures
        semantics::node_fits(n, np, rec, a, st) == semantics::node_fits(n, np, rec, b, st),
    decreases np, 3nat, 0nat,
{
    lemma_opt_props(n.properties, np.properties, rec, a, b, st);
}

proof fn lemma_fitting(
    nodes: Seq<NodeV>,
    i: int,
    acc: Seq<NodeV>,
    np: NodePatV,
    rec: RecV,
    a: EnvV,
    b: EnvV,
    st: StoreV,
)
    requires
        same_but_seed(a, b),
        steady_props(np.properties),
    ensures
        semantics::fitting(
            nodes,
            i,
            acc,
            np,
            rec,
            a,
            st,
        ) == semantics::fitting(
            nodes,
            i,
            acc,
            np,
            rec,
            b,
            st,
        ),
    decreases np, 4nat, nodes.len() - i,
{
    if 0 <= i < nodes.len() {
        lemma_node_fits(nodes[i], np, rec, a.at(i), b.at(i), st);
        match semantics::node_fits(nodes[i], np, rec, a.at(i), st) {
            Ok(true) => {
                lemma_fitting(nodes, i + 1, acc.push(nodes[i]), np, rec, a, b, st);
            },
            Ok(false) => {
                lemma_fitting(nodes, i + 1, acc, np, rec, a, b, st);
            },
            _ => {},
        }
    }
}

proof fn lemma_start_nodes(np: NodePatV, rec: RecV, a: EnvV, b: EnvV, st: StoreV)
    requires
        same_but_seed(a, b),
        steady_props(np.properties),
    ensures
        semantics::start_nodes(np, rec, a, st) == semantics::start_nodes(np, rec, b, st),
    decreases np, 5nat, 0nat,
{
    match semantics::bound_to(np.variable, rec) {
        Some(ValV::Node(n)) => {
            lemma_fitting(seq![n], 0, seq![], np, rec, a, b, st);
        },
        Some(_) => {},
        None => {
            let label = if np.labels.len() > 0 {
                Some(np.labels[0])
            } else {
                None
            };
            lemma_fitting(store::labelled(st, label), 0, seq![], np, rec, a, b, st);
        },
    }
}

proof fn lemma_step_along(e: EdgeV, id: u64, step: ChainV, rec: RecV, a: EnvV, b: EnvV, st: StoreV)
    requires
        same_but_seed(a, b),
        steady_step(step),
    ensures
        semantics::step_along(
            e,
            id,
            step,
            rec,
            a,
            st,
        ) == semantics::step_along(
            e,
            id,
            step,
            rec,
            b,
            st,
        ),
    decreases step, 4nat, 0nat,
{
    lemma_opt_props(e.properties, step.relationship.properties, rec, a.at(0), b.at(0), st);
    match store::node_at(st, semantics::other_end(e, id, step.relationship.direction)) {
        Some(next) => {
            lemma_node_fits(next, step.node, rec, a.at(1), b.at(1), st);
        },
        None => {},
    }
}

proof fn lemma_walkable(
    id: u64,
    chain: Seq<ChainV>,
    idx: int,
    rec: RecV,
    a: EnvV,
    b: EnvV,
    st: StoreV,
)
    requires
        same_but_seed(a, b),
        steady_chain(chain),
    ensures
        semantics::walkable(
            id,
            chain,
            idx,
            rec,
            a,
            st,
        ) == semantics::walkable(
            id,
            chain,
            idx,
            rec,
            b,
            st,
        ),
    decreases chain, (if idx <= chain.len() { 3 * (chain.len() - idx) + 2 } else { 0 }), 0nat,
{
    if 0 <= idx < chain.len() {
        let edges = semantics::edges_at(st, id, chain[idx].relationship.direction);
        lemma_walkable_along(edges, 0, id, chain, idx, rec, a, b, st);
    }
}

proof fn lemma_walkable_along(
    edges: Seq<EdgeV>,
    j: int,
    id: u64,
    chain: Seq<ChainV>,
    idx: int,
    rec: RecV,
    a: EnvV,
    b: EnvV,
    st: StoreV,
)
    requires
        same_but_seed(a, b),
        steady_chain(chain),
    ensures
        semantics::walkable_along(
            edges,
            j,
            id,
            chain,
            idx,
            rec,
            a,
            st,
        ) == semantics::walkable_along(
            edges,
            j,
            id,
            chain,
            idx,
            rec,
            b,
            st,
        ),
    decreases
        chain,
        (if idx <= chain.len() { 3 * (chain.len() - idx) + 1 } else { 0 }), edges.len() - j,
{
    if 0 <= idx < chain.len() && 0 <= j < edges.len() {
        lemma_walkable_via(edges[j], id, chain, idx, rec, a.at(j), b.at(j), st);
        lemma_walkable_along(edges, j + 1, id, chain, idx, rec, a, b, st);
    }
}

proof fn lemma_walkable_via(
    e: EdgeV,
    id: u64,
    chain: Seq<ChainV>,
    idx: int,
    rec: RecV,
    a: EnvV,
    b: EnvV,
    st: StoreV,
)
    requires
        same_but_seed(a, b),
        steady_chain(chain),
    ensures
        semantics::walkable_via(
            e,
            id,
            chain,
            idx,
            rec,
            a,
            st,
        ) == semantics::walkable_via(
            e,
            id,
            chain,
            idx,
            rec,
            b,
            st,
        ),
    decreases chain, (if idx <= chain.len() { 3 * (chain.len() - idx) } else { 0 }), 0nat,
{
    if 0 <= idx < chain.len() {
        lemma_step_along(e, id, chain[idx], rec, a.at(0), b.at(0), st);
        match semantics::step_along(e, id, chain[idx], rec, a.at(0), st) {
            Ok(Some(next)) => {
                lemma_walkable(next.id, chain, idx + 1, rec, a.at(1), b.at(1), st);
            },
            _ => {},
        }
    }
}

proof fn lemma_some_walkable(
    nodes: Seq<NodeV>,
    i: int,
    chain: Seq<ChainV>,
    rec: RecV,
    a: EnvV,
    b: EnvV,
    st: StoreV,
)
    requires
        same_but_seed(a, b),
        steady_chain(chain),
    ensures
        semantics::some_walkable(
            nodes,
            i,
            chain,
            rec,
            a,
            st,
        ) == semantics::some_walkable(
            nodes,
            i,
            chain,
            rec,
            b,
            st,
        ),
    decreases chain, 3 * chain.len() + 3, nodes.len() - i,
{
    if 0 <= i < nodes.len() {
        lemma_walkable(nodes[i].id, chain, 0, rec, a.at(i), b.at(i), st);
        lemma_some_walkable(nodes, i + 1, chain, rec, a, b, st);
    }
}

proof fn lemma_pattern(p: PatternV, rec: RecV, a: EnvV, b: EnvV, st: StoreV)
    requires
        same_but_seed(a, b),
        steady_pattern(p),
    ensures
        semantics::pattern_exists(p, rec, a, st) == semantics::pattern_exists(p, rec, b, st),
    decreases p, 3nat, 0nat,
{
    match p {
        PatternV::Node(np) => {
            lemma_start_nodes(np, rec, a.at(0), b.at(0), st);
        },
        PatternV::Chain { start, elements } => {
            lemma_start_nodes(start, rec, a.at(0), b.at(0), st);
            match semantics::start_nodes(start, rec, a.at(0), st) {
                Ok(nodes) => {
                    lemma_some_walkable(nodes, 0, elements, rec, a.at(1), b.at(1), st);
                },
                _ => {},
            }
        },
        _ => {},
    }
}

} // verus!
