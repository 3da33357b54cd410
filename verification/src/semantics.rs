//! What expressions mean: the value of an expression on a row of bindings.
use crate::aggregate;
use crate::assoc;
use crate::ast::{
    CaseV, ChainV, Direction, ExprV, FilterPredicateKind, KeyV, LitV, NodePatV, PatternV,
};
use crate::error::ErrV;
use crate::functions::{self, Func};
use crate::number;
use crate::ops::{self, EvalV};
use crate::outside::AnswersV;
use crate::store::{self, StoreV};
use crate::text;
use crate::value::{self, EdgeV, NodeV, PropsV, RecV, ValV};
use vstd::prelude::*;

verus! {

/// What an expression depends on besides the row and the graph: the query
/// parameters, the answers from outside and the state from which random
/// numbers are drawn. Each part of an expression draws from a branch of its own.
pub struct EnvV {
    pub params: RecV,
    pub answers: AnswersV,
    pub seed: u64,
    /// The rows of the group that functions over groups work on, if there is
    /// one.
    pub group: Option<Seq<RecV>>,
}

impl EnvV {
    /// The surroundings of the `k`-th part.
    pub open spec fn at(self, k: int) -> EnvV {
        EnvV { seed: number::branch_seed(self.seed, k as u64), ..self }
    }

    /// The surroundings in which functions over groups work on some rows.
    pub open spec fn over(self, rows: Seq<RecV>) -> EnvV {
        EnvV { group: Some(rows), ..self }
    }

    /// The surroundings without a group.
    pub open spec fn alone(self) -> EnvV {
        EnvV { group: None, ..self }
    }
}

/// Both of two results, or the first error.
pub open spec fn both(a: EvalV, b: EvalV) -> Result<(ValV, ValV), ErrV> {
    match a {
        Err(x) => Err(x),
        Ok(v) => match b {
            Err(x) => Err(x),
            Ok(w) => Ok((v, w)),
        },
    }
}

/// The value of an expression on a row.
pub open spec fn eval(e: ExprV, rec: RecV, env: EnvV, st: StoreV) -> EvalV
    decreases e, 4nat, 0nat,
{
    eval_parts(e, rec, env, st)
}

/// The value of an expression from the values of its parts.
pub open spec fn eval_parts(e: ExprV, rec: RecV, env: EnvV, st: StoreV) -> EvalV
    decreases e, 3nat, 0nat,
{
    match e {
        ExprV::Literal(l) => eval_literal(l, rec, env, st),
        ExprV::Variable(x) => Ok(value::value_or_null(rec, x)),
        ExprV::Parameter(x) => Ok(value::value_or_null(env.params, x)),
        ExprV::Property(b, p) => match eval(*b, rec, env.at(0), st) {
            Ok(v) => Ok(ops::property_of(v, p)),
            Err(x) => Err(x),
        },
        ExprV::BinaryOp { left, op, right } => match both(
            eval(*left, rec, env.at(0), st),
            eval(*right, rec, env.at(1), st),
        ) {
            Ok((l, r)) => ops::binary_op(env.answers, l, op, r),
            Err(x) => Err(x),
        },
        ExprV::UnaryOp { op, operand } => match eval(*operand, rec, env.at(0), st) {
            Ok(v) => Ok(ops::unary_op(op, v)),
            Err(x) => Err(x),
        },
        ExprV::Comparison { left, op, right } => match both(
            eval(*left, rec, env.at(0), st),
            eval(*right, rec, env.at(1), st),
        ) {
            Ok((l, r)) => Ok(ops::comparison(l, op, r)),
            Err(x) => Err(x),
        },
        ExprV::And(left, right) => match both(
            eval(*left, rec, env.at(0), st),
            eval(*right, rec, env.at(1), st),
        ) {
            Ok((l, r)) => Ok(ops::of_truth(ops::and3(ops::truth(l), ops::truth(r)))),
            Err(x) => Err(x),
        },
        ExprV::Or(left, right) => match both(
            eval(*left, rec, env.at(0), st),
            eval(*right, rec, env.at(1), st),
        ) {
            Ok((l, r)) => Ok(ops::of_truth(ops::or3(ops::truth(l), ops::truth(r)))),
            Err(x) => Err(x),
        },
        ExprV::Xor(left, right) => match both(
            eval(*left, rec, env.at(0), st),
            eval(*right, rec, env.at(1), st),
        ) {
            Ok((l, r)) => Ok(ops::of_truth(ops::xor3(ops::truth(l), ops::truth(r)))),
            Err(x) => Err(x),
        },
        ExprV::Not(operand) => match eval(*operand, rec, env.at(0), st) {
            Ok(v) => Ok(ops::of_truth(ops::not3(ops::truth(v)))),
            Err(x) => Err(x),
        },
        ExprV::IsNull(operand) => match eval(*operand, rec, env.at(0), st) {
            Ok(v) => Ok(ValV::Boolean(v is Null)),
            Err(x) => Err(x),
        },
        ExprV::IsNotNull(operand) => match eval(*operand, rec, env.at(0), st) {
            Ok(v) => Ok(ValV::Boolean(!(v is Null))),
            Err(x) => Err(x),
        },
        ExprV::FunctionCall { name, distinct, args } => eval_call(
            name,
            distinct,
            args,
            rec,
            env,
            st,
        ),
        ExprV::StringOp { left, op, right } => match both(
            eval(*left, rec, env.at(0), st),
            eval(*right, rec, env.at(1), st),
        ) {
            Ok((l, r)) => Ok(ops::string_op(l, op, r)),
            Err(x) => Err(x),
        },
        ExprV::RegexMatch { expr, pattern } => match both(
            eval(*expr, rec, env.at(0), st),
            eval(*pattern, rec, env.at(1), st),
        ) {
            Ok((v, p)) => Ok(ops::regex_match(v, p)),
            Err(x) => Err(x),
        },
        ExprV::In { expr, list } => match both(
            eval(*expr, rec, env.at(0), st),
            eval(*list, rec, env.at(1), st),
        ) {
            Ok((v, l)) => Ok(ops::in_list(v, l)),
            Err(x) => Err(x),
        },
        ExprV::DynamicProperty { expr, key } => match both(
            eval(*expr, rec, env.at(0), st),
            eval(*key, rec, env.at(1), st),
        ) {
            Ok((v, k)) => Ok(ops::dynamic_property(v, k)),
            Err(x) => Err(x),
        },
        ExprV::ListSlice { expr, start, end } => match eval(*expr, rec, env.at(0), st) {
            Err(x) => Err(x),
            Ok(v) => match eval_opt(start, rec, env.at(1), st) {
                Err(x) => Err(x),
                Ok(s) => match eval_opt(end, rec, env.at(2), st) {
                    Err(x) => Err(x),
                    Ok(t) => Ok(ops::slice_of(v, s, t)),
                },
            },
        },
        ExprV::Case { operand, alternatives, default } => match eval_opt(
            operand,
            rec,
            env.at(0),
            st,
        ) {
            Err(x) => Err(x),
            Ok(subject) => match eval_cases(subject, alternatives, 0, rec, env.at(1), st) {
                Err(x) => Err(x),
                Ok(Some(v)) => Ok(v),
                Ok(None) => match eval_opt(default, rec, env.at(2), st) {
                    Err(x) => Err(x),
                    Ok(Some(v)) => Ok(v),
                    Ok(None) => Ok(ValV::Null),
                },
            },
        },
        ExprV::ListComprehension { variable, list, predicate, map_expr } => match eval(
            *list,
            rec,
            env.at(0),
            st,
        ) {
            Err(x) => Err(x),
            Ok(ValV::List(items)) => comprehended(e, items, 0, seq![], rec, env.at(1), st),
            Ok(_) => Ok(ValV::Null),
        },
        ExprV::FilterPredicate { kind, variable, list, predicate } => match eval(
            *list,
            rec,
            env.at(0),
            st,
        ) {
            Err(x) => Err(x),
            Ok(ValV::List(items)) => match tested(e, items, 0, 0, false, rec, env.at(1), st) {
                Err(x) => Err(x),
                Ok((matching, has_null)) => Ok(
                    of_tested(kind, matching, has_null, items.len() as int),
                ),
            },
            Ok(_) => Ok(ValV::Null),
        },
        ExprV::Reduce { accumulator, init, variable, list, body } => match both(
            eval(*list, rec, env.at(0), st),
            eval(*init, rec, env.at(1), st),
        ) {
            Err(x) => Err(x),
            Ok((ValV::List(items), start)) => reduced(e, items, 0, start, rec, env.at(2), st),
            Ok(_) => Ok(ValV::Null),
        },
        ExprV::Exists { pattern } => match pattern_exists(*pattern, rec, env, st) {
            Ok(b) => Ok(ValV::Boolean(b)),
            Err(x) => Err(x),
        },
    }
}

/// An optional expression.
pub open spec fn eval_opt(o: Option<Box<ExprV>>, rec: RecV, env: EnvV, st: StoreV) -> Result<
    Option<ValV>,
    ErrV,
>
    decreases o, 2nat, 0nat,
{
    match o {
        None => Ok(None),
        Some(e) => match eval(*e, rec, env, st) {
            Ok(v) => Ok(Some(v)),
            Err(x) => Err(x),
        },
    }
}

pub open spec fn eval_literal(l: LitV, rec: RecV, env: EnvV, st: StoreV) -> EvalV
    decreases l, 2nat, 0nat,
{
    match l {
        LitV::Integer(i) => Ok(ValV::Integer(i)),
        LitV::Float(s) => functions::parsed_number(env.answers, s),
        LitV::Str(s) => Ok(ValV::Str(s)),
        LitV::Boolean(b) => Ok(ValV::Boolean(b)),
        LitV::Null => Ok(ValV::Null),
        LitV::List(items) => match eval_all(items, items.len() as int, 0, seq![], rec, env, st) {
            Ok(vs) => Ok(ValV::List(vs)),
            Err(x) => Err(x),
        },
        LitV::Dict(entries) => match eval_entries(entries, 0, seq![], rec, env, st) {
            Ok(m) => Ok(ValV::Dict(m)),
            Err(x) => Err(x),
        },
    }
}

/// The values of the expressions from the `i`-th to before the `n`-th, behind
/// those that are there already.
pub open spec fn eval_all(
    items: Seq<ExprV>,
    n: int,
    i: int,
    acc: Seq<ValV>,
    rec: RecV,
    env: EnvV,
    st: StoreV,
) -> Result<Seq<ValV>, ErrV>
    decreases items, 1nat, items.len() - i,
{
    if i < 0 || i >= items.len() || i >= n {
        Ok(acc)
    } else {
        match eval(items[i], rec, env.at(i), st) {
            Ok(v) => eval_all(items, n, i + 1, acc.push(v), rec, env, st),
            Err(x) => Err(x),
        }
    }
}

/// A computed key, which must be a text.
#[verifier::opaque]
pub open spec fn key_text(v: ValV) -> Result<Seq<char>, ErrV> {
    match v {
        ValV::Str(s) => Ok(s),
        _ => Err(ErrV::Type("Map key must be a string, got "@ + value::value_kind(v))),
    }
}

/// The key of an entry of a map.
pub open spec fn eval_key(k: KeyV, rec: RecV, env: EnvV, st: StoreV) -> Result<Seq<char>, ErrV>
    decreases k, 2nat, 0nat,
{
    match k {
        KeyV::Identifier(s) => Ok(s),
        KeyV::Expression(e) => match eval(*e, rec, env, st) {
            Ok(v) => key_text(v),
            Err(x) => Err(x),
        },
    }
}

pub open spec fn eval_entries(
    entries: Seq<(KeyV, ExprV)>,
    i: int,
    acc: RecV,
    rec: RecV,
    env: EnvV,
    st: StoreV,
) -> Result<RecV, ErrV>
    decreases entries, 1nat, entries.len() - i,
{
    if i < 0 || i >= entries.len() {
        Ok(acc)
    } else {
        match eval_key(entries[i].0, rec, env.at(i).at(0), st) {
            Err(x) => Err(x),
            Ok(k) => match eval(entries[i].1, rec, env.at(i).at(1), st) {
                Err(x) => Err(x),
                Ok(v) => eval_entries(entries, i + 1, assoc::bind(acc, k, v), rec, env, st),
            },
        }
    }
}

/// A call of a function. In a group, a function over groups works on the rows
/// of the group.
pub open spec fn eval_call(
    name: Seq<char>,
    distinct: bool,
    args: Seq<ExprV>,
    rec: RecV,
    env: EnvV,
    st: StoreV,
) -> EvalV
    decreases args, 2nat, 0nat,
{
    let f = functions::function_named(text::lower_text(name));
    if env.group is Some && functions::is_aggregate(text::lower_text(name)) {
        over_group(text::lower_text(name), distinct, args, env.group.unwrap(), env.alone(), st)
    } else if f == Func::Coalesce {
        coalesced(args, 0, rec, env, st)
    } else {
        match eval_all(
            args,
            functions::args_used(f, args.len() as int),
            0,
            seq![],
            rec,
            env.at(0),
            st,
        ) {
            Err(x) => Err(x),
            Ok(vs) => functions::apply(f, vs, rec, env.answers, env.seed, st),
        }
    }
}

/// The values of an expression on the rows from the `i`-th on that are not
/// null, behind those that are there already.
pub open spec fn non_null_values(
    e: ExprV,
    rows: Seq<RecV>,
    i: int,
    acc: Seq<ValV>,
    env: EnvV,
    st: StoreV,
) -> Result<Seq<ValV>, ErrV>
    decreases e, 5nat, rows.len() - i,
{
    if i < 0 || i >= rows.len() {
        Ok(acc)
    } else {
        match eval(e, rows[i], env.at(i), st) {
            Err(x) => Err(x),
            Ok(v) => if v is Null {
                non_null_values(e, rows, i + 1, acc, env, st)
            } else {
                non_null_values(e, rows, i + 1, acc.push(v), env, st)
            },
        }
    }
}

/// The values that a function over a group works on.
pub open spec fn group_values(
    e: ExprV,
    distinct: bool,
    rows: Seq<RecV>,
    env: EnvV,
    st: StoreV,
) -> Result<Seq<ValV>, ErrV>
    decreases e, 6nat, 0nat,
{
    match non_null_values(e, rows, 0, seq![], env, st) {
        Err(x) => Err(x),
        Ok(vals) => Ok(
            if distinct {
                aggregate::distinct_values(vals, 0, seq![], seq![])
            } else {
                vals
            },
        ),
    }
}

/// The value of a function over the rows of a group.
pub open spec fn over_group(
    f: Seq<char>,
    distinct: bool,
    args: Seq<ExprV>,
    rows: Seq<RecV>,
    env: EnvV,
    st: StoreV,
) -> EvalV
    decreases args, 1nat, 0nat,
{
    if f == "percentilecont"@ || f == "percentiledisc"@ {
        if args.len() < 2 {
            Ok(ValV::Null)
        } else {
            match group_values(args[0], false, rows, env.at(0), st) {
                Err(x) => Err(x),
                Ok(vals) => match eval(args[1], seq![], env.at(1), st) {
                    Err(x) => Err(x),
                    Ok(p) => aggregate::percentile_of(f, vals, p, env.answers),
                },
            }
        }
    } else if args.len() == 0 {
        Ok(aggregate::bare_group_function(f, rows.len()))
    } else {
        match group_values(args[0], distinct && !aggregate::takes_all(f), rows, env.at(0), st) {
            Err(x) => Err(x),
            Ok(vals) => aggregate::group_function(f, vals, env.answers),
        }
    }
}

/// The first value that is not null; the expressions after it are not
/// evaluated.
pub open spec fn coalesced(args: Seq<ExprV>, i: int, rec: RecV, env: EnvV, st: StoreV) -> EvalV
    decreases args, 1nat, args.len() - i,
{
    if i < 0 || i >= args.len() {
        Ok(ValV::Null)
    } else {
        match eval(args[i], rec, env.at(i), st) {
            Err(x) => Err(x),
            Ok(v) => if v is Null {
                coalesced(args, i + 1, rec, env, st)
            } else {
                Ok(v)
            },
        }
    }
}

/// Whether an alternative of a CASE applies: it equals the subject or, without
/// a subject, it is true.
pub open spec fn case_applies(subject: Option<ValV>, v: ValV) -> bool {
    match subject {
        Some(s) => ops::values_equal(s, v),
        None => ops::truthy(v),
    }
}

/// The value of the first alternative that applies, from the `i`-th on.
pub open spec fn eval_cases(
    subject: Option<ValV>,
    alternatives: Seq<CaseV>,
    i: int,
    rec: RecV,
    env: EnvV,
    st: StoreV,
) -> Result<Option<ValV>, ErrV>
    decreases alternatives, 1nat, alternatives.len() - i,
{
    if i < 0 || i >= alternatives.len() {
        Ok(None)
    } else {
        match eval(alternatives[i].when, rec, env.at(i).at(0), st) {
            Err(x) => Err(x),
            Ok(v) => if case_applies(subject, v) {
                match eval(alternatives[i].then_expr, rec, env.at(i).at(1), st) {
                    Err(x) => Err(x),
                    Ok(w) => Ok(Some(w)),
                }
            } else {
                eval_cases(subject, alternatives, i + 1, rec, env, st)
            },
        }
    }
}

/// What a list comprehension makes of one item; `None` where it is left out.
pub open spec fn comprehended_item(e: ExprV, item: ValV, rec: RecV, env: EnvV, st: StoreV) -> Result<
    Option<ValV>,
    ErrV,
>
    decreases e, 1nat, 0nat,
{
    match e {
        ExprV::ListComprehension { variable, list, predicate, map_expr } => {
            let inner = assoc::bind(rec, variable, item);
            match eval_opt(predicate, inner, env.at(0), st) {
                Err(x) => Err(x),
                Ok(p) => if p matches Some(v) && !ops::truthy(v) {
                    Ok(None)
                } else {
                    match eval_opt(map_expr, inner, env.at(1), st) {
                        Err(x) => Err(x),
                        Ok(Some(v)) => Ok(Some(v)),
                        Ok(None) => Ok(Some(item)),
                    }
                },
            }
        },
        _ => Ok(None),
    }
}

pub open spec fn comprehended(
    e: ExprV,
    items: Seq<ValV>,
    i: int,
    acc: Seq<ValV>,
    rec: RecV,
    env: EnvV,
    st: StoreV,
) -> EvalV
    decreases e, 2nat, items.len() - i,
{
    if i < 0 || i >= items.len() {
        Ok(ValV::List(acc))
    } else {
        match comprehended_item(e, items[i], rec, env.at(i), st) {
            Err(x) => Err(x),
            Ok(None) => comprehended(e, items, i + 1, acc, rec, env, st),
            Ok(Some(v)) => comprehended(e, items, i + 1, acc.push(v), rec, env, st),
        }
    }
}

/// How many items a predicate holds of, and whether it is null for some.
pub open spec fn tested(
    e: ExprV,
    items: Seq<ValV>,
    i: int,
    matching: int,
    has_null: bool,
    rec: RecV,
    env: EnvV,
    st: StoreV,
) -> Result<(int, bool), ErrV>
    decreases e, 2nat, items.len() - i,
{
    if i < 0 || i >= items.len() {
        Ok((matching, has_null))
    } else {
        match e {
            ExprV::FilterPredicate { kind, variable, list, predicate } => match eval(
                *predicate,
                assoc::bind(rec, variable, items[i]),
                env.at(i),
                st,
            ) {
                Err(x) => Err(x),
                Ok(v) => tested(
                    e,
                    items,
                    i + 1,
                    if ops::truthy(v) {
                        matching + 1
                    } else {
                        matching
                    },
                    has_null || v is Null,
                    rec,
                    env,
                    st,
                ),
            },
            _ => Ok((matching, has_null)),
        }
    }
}

/// What a list predicate says, given how many of its `len` items match.
#[verifier::opaque]
pub open spec fn of_tested(
    kind: FilterPredicateKind,
    matching: int,
    has_null: bool,
    len: int,
) -> ValV {
    let undecided = if has_null {
        ValV::Null
    } else {
        ValV::Boolean(kind == FilterPredicateKind::NoneOf)
    };
    match kind {
        FilterPredicateKind::Any => if matching > 0 {
            ValV::Boolean(true)
        } else {
            undecided
        },
        FilterPredicateKind::All => if matching == len {
            ValV::Boolean(true)
        } else {
            undecided
        },
        FilterPredicateKind::NoneOf => if matching > 0 {
            ValV::Boolean(false)
        } else {
            undecided
        },
        FilterPredicateKind::Single => if matching == 1 && !has_null {
            ValV::Boolean(true)
        } else if matching > 1 {
            ValV::Boolean(false)
        } else {
            undecided
        },
    }
}

/// The value of a reduction over the items from the `i`-th on.
pub open spec fn reduced(
    e: ExprV,
    items: Seq<ValV>,
    i: int,
    acc: ValV,
    rec: RecV,
    env: EnvV,
    st: StoreV,
) -> EvalV
    decreases e, 2nat, items.len() - i,
{
    if i < 0 || i >= items.len() {
        Ok(acc)
    } else {
        match reduced_item(e, items[i], acc, rec, env.at(i), st) {
            Err(x) => Err(x),
            Ok(v) => reduced(e, items, i + 1, v, rec, env, st),
        }
    }
}

/// The accumulator of a reduction after one item.
pub open spec fn reduced_item(
    e: ExprV,
    item: ValV,
    acc: ValV,
    rec: RecV,
    env: EnvV,
    st: StoreV,
) -> EvalV
    decreases e, 1nat, 0nat,
{
    match e {
        ExprV::Reduce { accumulator, init, variable, list, body } => eval(
            *body,
            assoc::bind(assoc::bind(rec, accumulator, acc), variable, item),
            env,
            st,
        ),
        _ => Ok(acc),
    }
}

// ---------------------------------------------------------------------------
// EXISTS
// ---------------------------------------------------------------------------

/// The properties have the values that the entries with fixed keys ask for,
/// from the `i`-th entry on.
pub open spec fn props_match(
    props: PropsV,
    entries: Seq<(KeyV, ExprV)>,
    i: int,
    rec: RecV,
    env: EnvV,
    st: StoreV,
) -> Result<bool, ErrV>
    decreases entries, 1nat, entries.len() - i,
{
    if i < 0 || i >= entries.len() {
        Ok(true)
    } else {
        match entries[i].0 {
            KeyV::Expression(_) => props_match(props, entries, i + 1, rec, env, st),
            KeyV::Identifier(k) => match eval(entries[i].1, rec, env.at(i), st) {
                Err(x) => Err(x),
                Ok(v) => if ops::values_equal(ops::prop_or_null(props, k), v) {
                    props_match(props, entries, i + 1, rec, env, st)
                } else {
                    Ok(false)
                },
            },
        }
    }
}

pub open spec fn opt_props_match(
    props: PropsV,
    entries: Option<Seq<(KeyV, ExprV)>>,
    rec: RecV,
    env: EnvV,
    st: StoreV,
) -> Result<bool, ErrV>
    decreases entries, 2nat, 0nat,
{
    match entries {
        None => Ok(true),
        Some(es) => props_match(props, es, 0, rec, env, st),
    }
}

/// A node fits a pattern.
pub open spec fn node_fits(n: NodeV, np: NodePatV, rec: RecV, env: EnvV, st: StoreV) -> Result<
    bool,
    ErrV,
>
    decreases np, 3nat, 0nat,
{
    if store::has_labels(n.labels, np.labels, 0) {
        opt_props_match(n.properties, np.properties, rec, env, st)
    } else {
        Ok(false)
    }
}

/// Those of the nodes from the `i`-th on that fit a pattern.
pub open spec fn fitting(
    nodes: Seq<NodeV>,
    i: int,
    acc: Seq<NodeV>,
    np: NodePatV,
    rec: RecV,
    env: EnvV,
    st: StoreV,
) -> Result<Seq<NodeV>, ErrV>
    decreases np, 4nat, nodes.len() - i,
{
    if i < 0 || i >= nodes.len() {
        Ok(acc)
    } else {
        match node_fits(nodes[i], np, rec, env.at(i), st) {
            Err(x) => Err(x),
            Ok(true) => fitting(nodes, i + 1, acc.push(nodes[i]), np, rec, env, st),
            Ok(false) => fitting(nodes, i + 1, acc, np, rec, env, st),
        }
    }
}

/// The nodes at which a pattern can start: the one that is bound already, or
/// any that fits.
pub open spec fn start_nodes(np: NodePatV, rec: RecV, env: EnvV, st: StoreV) -> Result<
    Seq<NodeV>,
    ErrV,
>
    decreases np, 5nat, 0nat,
{
    match bound_to(np.variable, rec) {
        Some(ValV::Node(n)) => fitting(seq![n], 0, seq![], np, rec, env, st),
        Some(_) => Ok(seq![]),
        None => fitting(
            store::labelled(
                st,
                if np.labels.len() > 0 {
                    Some(np.labels[0])
                } else {
                    None
                },
            ),
            0,
            seq![],
            np,
            rec,
            env,
            st,
        ),
    }
}

/// What a row binds an optional variable to.
pub open spec fn bound_to(variable: Option<Seq<char>>, rec: RecV) -> Option<ValV> {
    match variable {
        Some(x) => assoc::lookup(rec, x),
        None => None,
    }
}

/// The relationships at a node in a direction.
pub open spec fn edges_at(st: StoreV, id: u64, direction: Direction) -> Seq<EdgeV> {
    match direction {
        Direction::Outgoing => store::outgoing(st, id),
        Direction::Incoming => store::incoming(st, id),
        Direction::Undirected => store::outgoing(st, id) + store::incoming(st, id),
    }
}

/// The node at the other end of a relationship.
pub open spec fn other_end(e: EdgeV, id: u64, direction: Direction) -> u64 {
    match direction {
        Direction::Outgoing => e.dst,
        Direction::Incoming => e.src,
        Direction::Undirected => if e.src == id {
            e.dst
        } else {
            e.src
        },
    }
}

/// A relationship has one of the types; any will do where there are none.
pub open spec fn of_type(types: Seq<Seq<char>>, label: Seq<char>) -> bool {
    types.len() == 0 || text::has_text(types, label)
}

/// A variable is unbound, or bound to a node with an identifier.
pub open spec fn may_be_node(variable: Option<Seq<char>>, rec: RecV, id: u64) -> bool {
    match bound_to(variable, rec) {
        Some(ValV::Node(n)) => n.id == id,
        Some(_) => false,
        None => true,
    }
}

/// The node that a relationship leads to from node `id`, where the
/// relationship and that node fit a step of a pattern.
pub open spec fn step_along(e: EdgeV, id: u64, step: ChainV, rec: RecV, env: EnvV, st: StoreV) -> Result<
    Option<NodeV>,
    ErrV,
>
    decreases step, 4nat, 0nat,
{
    if !of_type(step.relationship.rel_types, e.label) {
        Ok(None)
    } else {
        match opt_props_match(e.properties, step.relationship.properties, rec, env.at(0), st) {
            Err(x) => Err(x),
            Ok(false) => Ok(None),
            Ok(true) => match store::node_at(st, other_end(e, id, step.relationship.direction)) {
                None => Ok(None),
                Some(next) => if !may_be_node(step.node.variable, rec, next.id) {
                    Ok(None)
                } else {
                    match node_fits(next, step.node, rec, env.at(1), st) {
                        Err(x) => Err(x),
                        Ok(false) => Ok(None),
                        Ok(true) => Ok(Some(next)),
                    }
                },
            },
        }
    }
}

/// A chain of steps can be walked from a node, from the `idx`-th step on.
pub open spec fn walkable(
    id: u64,
    chain: Seq<ChainV>,
    idx: int,
    rec: RecV,
    env: EnvV,
    st: StoreV,
) -> Result<bool, ErrV>
    decreases chain, (if idx <= chain.len() { 3 * (chain.len() - idx) + 2 } else { 0 }), 0nat,
{
    if idx < 0 || idx >= chain.len() {
        Ok(true)
    } else {
        walkable_along(
            edges_at(st, id, chain[idx].relationship.direction),
            0,
            id,
            chain,
            idx,
            rec,
            env,
            st,
        )
    }
}

/// The same along one of the given relationships, from the `j`-th on.
pub open spec fn walkable_along(
    edges: Seq<EdgeV>,
    j: int,
    id: u64,
    chain: Seq<ChainV>,
    idx: int,
    rec: RecV,
    env: EnvV,
    st: StoreV,
) -> Result<bool, ErrV>
    decreases chain, (if idx <= chain.len() { 3 * (chain.len() - idx) + 1 } else { 0 }), edges.len() - j,
{
    if idx < 0 || idx >= chain.len() || j < 0 || j >= edges.len() {
        Ok(false)
    } else {
        match walkable_via(edges[j], id, chain, idx, rec, env.at(j), st) {
            Err(x) => Err(x),
            Ok(true) => Ok(true),
            Ok(false) => walkable_along(edges, j + 1, id, chain, idx, rec, env, st),
        }
    }
}

/// The same along one relationship.
pub open spec fn walkable_via(
    e: EdgeV,
    id: u64,
    chain: Seq<ChainV>,
    idx: int,
    rec: RecV,
    env: EnvV,
    st: StoreV,
) -> Result<bool, ErrV>
    decreases chain, (if idx <= chain.len() { 3 * (chain.len() - idx) } else { 0 }), 0nat,
{
    if idx < 0 || idx >= chain.len() {
        Ok(false)
    } else {
        match step_along(e, id, chain[idx], rec, env.at(0), st) {
            Err(x) => Err(x),
            Ok(None) => Ok(false),
            Ok(Some(next)) => walkable(next.id, chain, idx + 1, rec, env.at(1), st),
        }
    }
}

/// A chain of steps can be walked from one of the nodes from the `i`-th on.
pub open spec fn some_walkable(
    nodes: Seq<NodeV>,
    i: int,
    chain: Seq<ChainV>,
    rec: RecV,
    env: EnvV,
    st: StoreV,
) -> Result<bool, ErrV>
    decreases chain, 3 * chain.len() + 3, nodes.len() - i,
{
    if i < 0 || i >= nodes.len() {
        Ok(false)
    } else {
        match walkable(nodes[i].id, chain, 0, rec, env.at(i), st) {
            Err(x) => Err(x),
            Ok(true) => Ok(true),
            Ok(false) => some_walkable(nodes, i + 1, chain, rec, env, st),
        }
    }
}

/// Some step of a chain, from the `i`-th on, has a variable length.
pub open spec fn has_range(chain: Seq<ChainV>, i: int) -> bool
    decreases chain.len() - i,
{
    if i < 0 || i >= chain.len() {
        false
    } else {
        chain[i].relationship.range is Some || has_range(chain, i + 1)
    }
}

/// A pattern matches somewhere in the graph, given the bindings of a row.
pub open spec fn pattern_exists(p: PatternV, rec: RecV, env: EnvV, st: StoreV) -> Result<bool, ErrV>
    decreases p, 3nat, 0nat,
{
    match p {
        PatternV::Node(np) => match start_nodes(np, rec, env.at(0), st) {
            Err(x) => Err(x),
            Ok(nodes) => Ok(nodes.len() > 0),
        },
        PatternV::Chain { start, elements } => if has_range(elements, 0) {
            Err(ErrV::Semantic("EXISTS does not yet support variable-length relationships"@))
        } else {
            match start_nodes(start, rec, env.at(0), st) {
                Err(x) => Err(x),
                Ok(nodes) => some_walkable(nodes, 0, elements, rec, env.at(1), st),
            }
        },
        _ => Err(ErrV::Semantic("EXISTS does not yet support variable-length relationships"@)),
    }
}

} // verus!
