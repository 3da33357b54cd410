//! The evaluation of expressions.
use crate::aggregate::{
    self, compute_bare_function, compute_group_function, drop_repeated_values, percentile_cont,
    percentile_disc,
};
use crate::ast::{
    self, CaseAlternative, Direction, Expression, FilterPredicateKind, Literal, MapKey, MapLiteral,
    NodePattern, PatternChainElement, PatternElement,
};
use crate::backend::{self, StorageBackend};
use crate::error::{CypherError, ErrV};
use crate::functions::{
    aggregate_name, apply_function, count_args, find_function, parse_number, Func,
};
use crate::number::branch;
use crate::ops::{
    self, equal_values, eval_and, eval_binary_op, eval_comparison, eval_dynamic_property, eval_in,
    eval_list_slice, eval_not, eval_or, eval_regex_match, eval_string_op, eval_unary_op, eval_xor,
    get_property, is_truthy, outcome, prop_value, to_f64,
};
use crate::outside::Outside;
use crate::semantics::{self, EnvV};
use crate::store;
use crate::text::{self, join2, list_has, lowercase, same_text};
use crate::value::{
    self, cypher_value_type_name, CypherValue, Edge, Node, NodeId, Parameters, PropertyMap, Record,
    ValV, ValueMap,
};
use vstd::prelude::*;

verus! {

/// What an evaluation depends on besides the row and the graph.
pub struct Ctx<'a, O: Outside> {
    pub params: &'a Parameters,
    pub outside: &'a O,
    pub seed: u64,
    /// The rows of the group that functions over groups work on, if there is
    /// one.
    pub group: Option<&'a Vec<Record>>,
}

/// The view of the rows of a group.
pub open spec fn opt_rows(o: Option<&Vec<Record>>) -> Option<Seq<value::RecV>> {
    match o {
        Some(rows) => Some(value::recs_view(rows@)),
        None => None,
    }
}

impl<'a, O: Outside> Ctx<'a, O> {
    pub open spec fn env(&self) -> EnvV {
        EnvV {
            params: self.params@,
            answers: self.outside.answers(),
            seed: self.seed,
            group: opt_rows(self.group),
        }
    }

    /// The surroundings of the `k`-th part.
    pub fn at(&self, k: usize) -> (r: Ctx<'a, O>)
        ensures
            r.env() == self.env().at(k as int),
            r.params == self.params,
            r.outside == self.outside,
    {
        Ctx {
            params: self.params,
            outside: self.outside,
            seed: branch(self.seed, k as u64),
            group: self.group,
        }
    }

    /// The surroundings in which functions over groups work on some rows.
    pub fn over<'b>(&'b self, rows: &'b Vec<Record>) -> (r: Ctx<'b, O>)
        ensures
            r.env() == self.env().over(value::recs_view(rows@)),
    {
        Ctx { params: self.params, outside: self.outside, seed: self.seed, group: Some(rows) }
    }

    /// The surroundings without a group.
    pub fn alone(&self) -> (r: Ctx<'a, O>)
        ensures
            r.env() == self.env().alone(),
            r.outside == self.outside,
    {
        Ctx { params: self.params, outside: self.outside, seed: self.seed, group: None }
    }
}

/// Evaluates an expression on a row.
pub fn eval_with_params<S: StorageBackend, O: Outside>(
    expr: &Expression,
    record: &Record,
    ctx: &Ctx<O>,
    storage: &S,
) -> (r: Result<CypherValue, CypherError>)
    requires
        storage.valid(),
    ensures
        outcome(r) == semantics::eval(expr@, record@, ctx.env(), storage.store()),
    decreases expr@, 4nat, 0nat,
{
    eval_expression(expr, record, ctx, storage)
}

/// Evaluates the parts of an expression, and combines their values.
fn eval_expression<S: StorageBackend, O: Outside>(
    expr: &Expression,
    record: &Record,
    ctx: &Ctx<O>,
    storage: &S,
) -> (r: Result<CypherValue, CypherError>)
    requires
        storage.valid(),
    ensures
        outcome(r) == semantics::eval_parts(expr@, record@, ctx.env(), storage.store()),
    decreases expr@, 3nat, 0nat,
{
    proof {
        assert(expr@ == expr.parts());
    }
    match expr {
        Expression::Literal(l) => eval_literal(l, record, ctx, storage),
        Expression::Variable(name) => Ok(record.get_or_null(name.as_str())),
        Expression::Parameter(name) => Ok(ctx.params.get_or_null(name.as_str())),
        Expression::Property(base, name) => {
            let v = eval_with_params(base, record, &ctx.at(0), storage)?;
            Ok(get_property(&v, name.as_str()))
        },
        Expression::BinaryOp { left, op, right } => {
            let l = eval_with_params(left, record, &ctx.at(0), storage)?;
            let r = eval_with_params(right, record, &ctx.at(1), storage)?;
            eval_binary_op(&l, *op, &r, ctx.outside)
        },
        Expression::UnaryOp { op, operand } => {
            let v = eval_with_params(operand, record, &ctx.at(0), storage)?;
            Ok(eval_unary_op(*op, &v))
        },
        Expression::Comparison { left, op, right } => {
            let l = eval_with_params(left, record, &ctx.at(0), storage)?;
            let r = eval_with_params(right, record, &ctx.at(1), storage)?;
            Ok(eval_comparison(&l, *op, &r))
        },
        Expression::And(left, right) => {
            let l = eval_with_params(left, record, &ctx.at(0), storage)?;
            let r = eval_with_params(right, record, &ctx.at(1), storage)?;
            Ok(eval_and(&l, &r))
        },
        Expression::Or(left, right) => {
            let l = eval_with_params(left, record, &ctx.at(0), storage)?;
            let r = eval_with_params(right, record, &ctx.at(1), storage)?;
            Ok(eval_or(&l, &r))
        },
        Expression::Xor(left, right) => {
            let l = eval_with_params(left, record, &ctx.at(0), storage)?;
            let r = eval_with_params(right, record, &ctx.at(1), storage)?;
            Ok(eval_xor(&l, &r))
        },
        Expression::Not(operand) => {
            let v = eval_with_params(operand, record, &ctx.at(0), storage)?;
            Ok(eval_not(&v))
        },
        Expression::IsNull(operand) => {
            let v = eval_with_params(operand, record, &ctx.at(0), storage)?;
            Ok(CypherValue::Boolean(is_null(&v)))
        },
        Expression::IsNotNull(operand) => {
            let v = eval_with_params(operand, record, &ctx.at(0), storage)?;
            Ok(CypherValue::Boolean(!is_null(&v)))
        },
        Expression::FunctionCall { name, distinct, args } => eval_function(
            name.as_str(),
            *distinct,
            args,
            record,
            ctx,
            storage,
        ),
        Expression::StringOp { left, op, right } => {
            let l = eval_with_params(left, record, &ctx.at(0), storage)?;
            let r = eval_with_params(right, record, &ctx.at(1), storage)?;
            Ok(eval_string_op(&l, *op, &r))
        },
        Expression::RegexMatch { expr: e, pattern } => {
            let v = eval_with_params(e, record, &ctx.at(0), storage)?;
            let p = eval_with_params(pattern, record, &ctx.at(1), storage)?;
            Ok(eval_regex_match(&v, &p))
        },
        Expression::In { expr: e, list } => {
            let v = eval_with_params(e, record, &ctx.at(0), storage)?;
            let l = eval_with_params(list, record, &ctx.at(1), storage)?;
            Ok(eval_in(&v, &l))
        },
        Expression::DynamicProperty { expr: e, key } => {
            let v = eval_with_params(e, record, &ctx.at(0), storage)?;
            let k = eval_with_params(key, record, &ctx.at(1), storage)?;
            Ok(eval_dynamic_property(&v, &k))
        },
        Expression::ListSlice { expr: e, start, end } => {
            let v = eval_with_params(e, record, &ctx.at(0), storage)?;
            let s = eval_optional(start, record, &ctx.at(1), storage)?;
            let t = eval_optional(end, record, &ctx.at(2), storage)?;
            Ok(eval_list_slice(&v, &s, &t))
        },
        Expression::Case { operand, alternatives, default } => {
            let subject = eval_optional(operand, record, &ctx.at(0), storage)?;
            match eval_case(&subject, alternatives, record, &ctx.at(1), storage)? {
                Some(v) => Ok(v),
                None => match eval_optional(default, record, &ctx.at(2), storage)? {
                    Some(v) => Ok(v),
                    None => Ok(CypherValue::Null),
                },
            }
        },
        Expression::ListComprehension { variable, list, predicate, map_expr } => {
            let l = eval_with_params(list, record, &ctx.at(0), storage)?;
            match &l {
                CypherValue::List(items) => eval_list_comprehension(
                    expr,
                    items,
                    record,
                    &ctx.at(1),
                    storage,
                ),
                _ => Ok(CypherValue::Null),
            }
        },
        Expression::FilterPredicate { kind, variable, list, predicate } => {
            let l = eval_with_params(list, record, &ctx.at(0), storage)?;
            match &l {
                CypherValue::List(items) => {
                    let t = eval_filter_predicate(expr, items, record, &ctx.at(1), storage)?;
                    Ok(list_verdict(*kind, t.0, t.1, items.len()))
                },
                _ => Ok(CypherValue::Null),
            }
        },
        Expression::Reduce { accumulator, init, variable, list, body } => {
            let l = eval_with_params(list, record, &ctx.at(0), storage)?;
            let start = eval_with_params(init, record, &ctx.at(1), storage)?;
            match &l {
                CypherValue::List(items) => eval_reduce(
                    expr,
                    items,
                    start,
                    record,
                    &ctx.at(2),
                    storage,
                ),
                _ => Ok(CypherValue::Null),
            }
        },
        Expression::Exists { pattern } => {
            let b = eval_exists(pattern, record, ctx, storage)?;
            Ok(CypherValue::Boolean(b))
        },
    }
}

pub fn is_null(v: &CypherValue) -> (r: bool)
    ensures
        r == (v@ is Null),
{
    match v {
        CypherValue::Null => true,
        _ => false,
    }
}

/// The view of the result of an optional evaluation.
pub open spec fn opt_outcome(r: Result<Option<CypherValue>, CypherError>) -> Result<
    Option<ValV>,
    ErrV,
> {
    match r {
        Ok(o) => Ok(ops::opt_value(o)),
        Err(e) => Err(e@),
    }
}

fn eval_optional<S: StorageBackend, O: Outside>(
    o: &Option<Box<Expression>>,
    record: &Record,
    ctx: &Ctx<O>,
    storage: &S,
) -> (r: Result<Option<CypherValue>, CypherError>)
    requires
        storage.valid(),
    ensures
        opt_outcome(r) == semantics::eval_opt(
            ast::opt_expr(*o),
            record@,
            ctx.env(),
            storage.store(),
        ),
    decreases ast::opt_expr(*o), 2nat, 0nat,
{
    match o {
        None => Ok(None),
        Some(e) => {
            let v = eval_with_params(e, record, ctx, storage)?;
            Ok(Some(v))
        },
    }
}

fn eval_literal<S: StorageBackend, O: Outside>(
    lit: &Literal,
    record: &Record,
    ctx: &Ctx<O>,
    storage: &S,
) -> (r: Result<CypherValue, CypherError>)
    requires
        storage.valid(),
    ensures
        outcome(r) == semantics::eval_literal(lit@, record@, ctx.env(), storage.store()),
    decreases lit@, 2nat, 0nat,
{
    match lit {
        Literal::Integer(i) => Ok(CypherValue::Integer(*i)),
        Literal::Float(s) => parse_number(s.as_str(), ctx.outside),
        Literal::String(s) => Ok(CypherValue::String(s.clone())),
        Literal::Boolean(b) => Ok(CypherValue::Boolean(*b)),
        Literal::Null => Ok(CypherValue::Null),
        Literal::List(items) => {
            let vs = eval_expressions(items, items.len(), record, ctx, storage)?;
            Ok(CypherValue::List(vs))
        },
        Literal::MapValue(m) => {
            let entries = eval_map(&m.entries, record, ctx, storage)?;
            Ok(CypherValue::MapValue(entries))
        },
    }
}

/// The view of the result of several evaluations.
pub open spec fn all_outcome(r: Result<Vec<CypherValue>, CypherError>) -> Result<Seq<ValV>, ErrV> {
    match r {
        Ok(vs) => Ok(value::vals_view(vs@)),
        Err(e) => Err(e@),
    }
}

/// Evaluates the first `n` expressions of a list.
pub fn eval_expressions<S: StorageBackend, O: Outside>(
    items: &Vec<Expression>,
    n: usize,
    record: &Record,
    ctx: &Ctx<O>,
    storage: &S,
) -> (r: Result<Vec<CypherValue>, CypherError>)
    requires
        storage.valid(),
    ensures
        all_outcome(r) == semantics::eval_all(
            ast::exprs_view(items@),
            n as int,
            0,
            seq![],
            record@,
            ctx.env(),
            storage.store(),
        ),
    decreases ast::exprs_view(items@), 1nat, 0nat,
{
    let mut out: Vec<CypherValue> = Vec::new();
    let mut i: usize = 0;
    proof {
        assert(value::vals_view(out@) =~= seq![]);
    }
    while i < items.len() && i < n
        invariant
            storage.valid(),
            i <= items.len(),
            semantics::eval_all(
                ast::exprs_view(items@),
                n as int,
                0,
                seq![],
                record@,
                ctx.env(),
                storage.store(),
            ) == semantics::eval_all(
                ast::exprs_view(items@),
                n as int,
                i as int,
                value::vals_view(out@),
                record@,
                ctx.env(),
                storage.store(),
            ),
        decreases items.len() - i,
    {
        let ghost before = value::vals_view(out@);
        let v = eval_with_params(&items[i], record, &ctx.at(i), storage)?;
        out.push(v);
        proof {
            assert(value::vals_view(out@) =~= before.push(v@));
        }
        i += 1;
    }
    Ok(out)
}

/// The view of the result of evaluating a key.
pub open spec fn key_outcome(r: Result<String, CypherError>) -> Result<Seq<char>, ErrV> {
    match r {
        Ok(s) => Ok(s@),
        Err(e) => Err(e@),
    }
}

/// A computed key, which must be a text.
fn text_key(v: CypherValue) -> (r: Result<String, CypherError>)
    ensures
        key_outcome(r) == semantics::key_text(v@),
{
    proof {
        reveal(semantics::key_text);
    }
    match &v {
        CypherValue::String(s) => Ok(s.clone()),
        other => Err(
            CypherError::TypeError(
                join2("Map key must be a string, got ", cypher_value_type_name(other)),
            ),
        ),
    }
}

fn eval_map_key<S: StorageBackend, O: Outside>(
    key: &MapKey,
    record: &Record,
    ctx: &Ctx<O>,
    storage: &S,
) -> (r: Result<String, CypherError>)
    requires
        storage.valid(),
    ensures
        key_outcome(r) == semantics::eval_key(key@, record@, ctx.env(), storage.store()),
    decreases key@, 2nat, 0nat,
{
    match key {
        MapKey::Identifier(s) => Ok(s.clone()),
        MapKey::Expression(e) => {
            let v = eval_with_params(e, record, ctx, storage)?;
            text_key(v)
        },
    }
}

/// The view of the result of evaluating a map.
pub open spec fn map_outcome(r: Result<ValueMap, CypherError>) -> Result<value::RecV, ErrV> {
    match r {
        Ok(m) => Ok(m@),
        Err(e) => Err(e@),
    }
}

fn eval_map<S: StorageBackend, O: Outside>(
    entries: &Vec<(MapKey, Expression)>,
    record: &Record,
    ctx: &Ctx<O>,
    storage: &S,
) -> (r: Result<ValueMap, CypherError>)
    requires
        storage.valid(),
    ensures
        map_outcome(r) == semantics::eval_entries(
            ast::entries_view(entries@),
            0,
            seq![],
            record@,
            ctx.env(),
            storage.store(),
        ),
    decreases ast::entries_view(entries@), 1nat, 0nat,
{
    let mut out = ValueMap::new();
    let mut i: usize = 0;
    while i < entries.len()
        invariant
            storage.valid(),
            i <= entries.len(),
            semantics::eval_entries(ast::entries_view(entries@), 0, seq![], record@, ctx.env(), storage.store())
                == semantics::eval_entries(
                ast::entries_view(entries@),
                i as int,
                out@,
                record@,
                ctx.env(),
                storage.store(),
            ),
        decreases entries.len() - i,
    {
        let here = ctx.at(i);
        let k = eval_map_key(&entries[i].0, record, &here.at(0), storage)?;
        let v = eval_with_params(&entries[i].1, record, &here.at(1), storage)?;
        out.insert(k, v);
        i += 1;
    }
    Ok(out)
}

fn eval_function<S: StorageBackend, O: Outside>(
    name: &str,
    distinct: bool,
    args: &Vec<Expression>,
    record: &Record,
    ctx: &Ctx<O>,
    storage: &S,
) -> (r: Result<CypherValue, CypherError>)
    requires
        storage.valid(),
    ensures
        outcome(r) == semantics::eval_call(
            name@,
            distinct,
            ast::exprs_view(args@),
            record@,
            ctx.env(),
            storage.store(),
        ),
    decreases ast::exprs_view(args@), 2nat, 0nat,
{
    let lower = lowercase(name);
    if let Some(rows) = ctx.group {
        if aggregate_name(lower.as_str()) {
            return eval_over_group(lower.as_str(), distinct, args, rows, &ctx.alone(), storage);
        }
    }
    let f = find_function(lower.as_str());
    if f == Func::Coalesce {
        eval_coalesce(args, record, ctx, storage)
    } else {
        let n = count_args(f, args.len());
        let vs = eval_expressions(args, n, record, &ctx.at(0), storage)?;
        apply_function(f, &vs, record, ctx.outside, ctx.seed, storage)
    }
}

fn collect_non_null_values<S: StorageBackend, O: Outside>(
    expr: &Expression,
    rows: &Vec<Record>,
    distinct: bool,
    ctx: &Ctx<O>,
    storage: &S,
) -> (r: Result<Vec<CypherValue>, CypherError>)
    requires
        storage.valid(),
    ensures
        aggregate::values_outcome(r) == semantics::group_values(
            expr@,
            distinct,
            value::recs_view(rows@),
            ctx.env(),
            storage.store(),
        ),
    decreases expr@, 6nat, 0nat,
{
    let mut vals: Vec<CypherValue> = Vec::new();
    let mut i: usize = 0;
    proof {
        assert(value::vals_view(vals@) =~= seq![]);
    }
    while i < rows.len()
        invariant
            storage.valid(),
            i <= rows.len(),
            semantics::non_null_values(
                expr@,
                value::recs_view(rows@),
                0,
                seq![],
                ctx.env(),
                storage.store(),
            ) == semantics::non_null_values(
                expr@,
                value::recs_view(rows@),
                i as int,
                value::vals_view(vals@),
                ctx.env(),
                storage.store(),
            ),
        decreases rows.len() - i,
    {
        let v = eval_with_params(expr, &rows[i], &ctx.at(i), storage)?;
        if !is_null(&v) {
            proof {
                assert(value::vals_view(vals@.push(v)) =~= value::vals_view(vals@).push(v@));
            }
            vals.push(v);
        }
        i += 1;
    }
    if distinct {
        Ok(drop_repeated_values(&vals))
    } else {
        Ok(vals)
    }
}

fn eval_over_group<S: StorageBackend, O: Outside>(
    f: &str,
    distinct: bool,
    args: &Vec<Expression>,
    rows: &Vec<Record>,
    ctx: &Ctx<O>,
    storage: &S,
) -> (r: Result<CypherValue, CypherError>)
    requires
        storage.valid(),
    ensures
        outcome(r) == semantics::over_group(
            f@,
            distinct,
            ast::exprs_view(args@),
            value::recs_view(rows@),
            ctx.env(),
            storage.store(),
        ),
    decreases ast::exprs_view(args@), 1nat, 0nat,
{
    if same_text(f, "percentilecont") || same_text(f, "percentiledisc") {
        if args.len() < 2 {
            return Ok(CypherValue::Null);
        }
        let vals = collect_non_null_values(&args[0], rows, false, &ctx.at(0), storage)?;
        let empty = Record::new();
        let p = eval_with_params(&args[1], &empty, &ctx.at(1), storage)?;
        match to_f64(&p) {
            None => Ok(CypherValue::Null),
            Some(x) => if same_text(f, "percentilecont") {
                percentile_cont(&vals, x, ctx.outside)
            } else {
                percentile_disc(&vals, x, ctx.outside)
            },
        }
    } else if args.len() == 0 {
        Ok(compute_bare_function(f, rows.len()))
    } else {
        let all = same_text(f, "min") || same_text(f, "max");
        let vals = collect_non_null_values(&args[0], rows, distinct && !all, &ctx.at(0), storage)?;
        compute_group_function(f, vals, ctx.outside)
    }
}

fn eval_coalesce<S: StorageBackend, O: Outside>(
    args: &Vec<Expression>,
    record: &Record,
    ctx: &Ctx<O>,
    storage: &S,
) -> (r: Result<CypherValue, CypherError>)
    requires
        storage.valid(),
    ensures
        outcome(r) == semantics::coalesced(
            ast::exprs_view(args@),
            0,
            record@,
            ctx.env(),
            storage.store(),
        ),
    decreases ast::exprs_view(args@), 1nat, 0nat,
{
    let mut i: usize = 0;
    while i < args.len()
        invariant
            storage.valid(),
            i <= args.len(),
            semantics::coalesced(
                ast::exprs_view(args@),
                0,
                record@,
                ctx.env(),
                storage.store(),
            ) == semantics::coalesced(
                ast::exprs_view(args@),
                i as int,
                record@,
                ctx.env(),
                storage.store(),
            ),
        decreases args.len() - i,
    {
        let v = eval_with_params(&args[i], record, &ctx.at(i), storage)?;
        if !is_null(&v) {
            return Ok(v);
        }
        i += 1;
    }
    Ok(CypherValue::Null)
}

fn eval_case<S: StorageBackend, O: Outside>(
    subject: &Option<CypherValue>,
    alternatives: &Vec<CaseAlternative>,
    record: &Record,
    ctx: &Ctx<O>,
    storage: &S,
) -> (r: Result<Option<CypherValue>, CypherError>)
    requires
        storage.valid(),
    ensures
        opt_outcome(r) == semantics::eval_cases(
            ops::opt_value(*subject),
            ast::cases_view(alternatives@),
            0,
            record@,
            ctx.env(),
            storage.store(),
        ),
    decreases ast::cases_view(alternatives@), 1nat, 0nat,
{
    let mut i: usize = 0;
    while i < alternatives.len()
        invariant
            storage.valid(),
            i <= alternatives.len(),
            semantics::eval_cases(
                ops::opt_value(*subject),
                ast::cases_view(alternatives@),
                0,
                record@,
                ctx.env(),
                storage.store(),
            ) == semantics::eval_cases(
                ops::opt_value(*subject),
                ast::cases_view(alternatives@),
                i as int,
                record@,
                ctx.env(),
                storage.store(),
            ),
        decreases alternatives.len() - i,
    {
        let here = ctx.at(i);
        let v = eval_with_params(&alternatives[i].when, record, &here.at(0), storage)?;
        let applies = match subject {
            Some(s) => equal_values(s, &v),
            None => is_truthy(&v),
        };
        if applies {
            let w = eval_with_params(&alternatives[i].then_expr, record, &here.at(1), storage)?;
            return Ok(Some(w));
        }
        i += 1;
    }
    Ok(None)
}

fn eval_comprehension_item<S: StorageBackend, O: Outside>(
    expr: &Expression,
    item: &CypherValue,
    record: &Record,
    ctx: &Ctx<O>,
    storage: &S,
) -> (r: Result<Option<CypherValue>, CypherError>)
    requires
        storage.valid(),
    ensures
        opt_outcome(r) == semantics::comprehended_item(
            expr@,
            item@,
            record@,
            ctx.env(),
            storage.store(),
        ),
    decreases expr@, 1nat, 0nat,
{
    proof {
        assert(expr@ == expr.parts());
    }
    match expr {
        Expression::ListComprehension { variable, list, predicate, map_expr } => {
            let inner = record.with(variable.as_str(), item.clone());
            if let Some(p) = eval_optional(predicate, &inner, &ctx.at(0), storage)? {
                if !is_truthy(&p) {
                    return Ok(None);
                }
            }
            match eval_optional(map_expr, &inner, &ctx.at(1), storage)? {
                Some(v) => Ok(Some(v)),
                None => Ok(Some(item.clone())),
            }
        },
        _ => Ok(None),
    }
}

fn eval_list_comprehension<S: StorageBackend, O: Outside>(
    expr: &Expression,
    items: &Vec<CypherValue>,
    record: &Record,
    ctx: &Ctx<O>,
    storage: &S,
) -> (r: Result<CypherValue, CypherError>)
    requires
        storage.valid(),
    ensures
        outcome(r) == semantics::comprehended(
            expr@,
            value::vals_view(items@),
            0,
            seq![],
            record@,
            ctx.env(),
            storage.store(),
        ),
    decreases expr@, 2nat, 0nat,
{
    let mut out: Vec<CypherValue> = Vec::new();
    let mut i: usize = 0;
    proof {
        assert(value::vals_view(out@) =~= seq![]);
    }
    while i < items.len()
        invariant
            storage.valid(),
            i <= items.len(),
            semantics::comprehended(
                expr@,
                value::vals_view(items@),
                0,
                seq![],
                record@,
                ctx.env(),
                storage.store(),
            ) == semantics::comprehended(
                expr@,
                value::vals_view(items@),
                i as int,
                value::vals_view(out@),
                record@,
                ctx.env(),
                storage.store(),
            ),
        decreases items.len() - i,
    {
        let ghost before = value::vals_view(out@);
        if let Some(v) = eval_comprehension_item(expr, &items[i], record, &ctx.at(i), storage)? {
            out.push(v);
            proof {
                assert(value::vals_view(out@) =~= before.push(v@));
            }
        }
        i += 1;
    }
    Ok(CypherValue::List(out))
}

/// The view of the counts of a list predicate.
pub open spec fn tested_outcome(r: Result<(usize, bool), CypherError>) -> Result<(int, bool), ErrV> {
    match r {
        Ok((n, b)) => Ok((n as int, b)),
        Err(e) => Err(e@),
    }
}

fn eval_filter_predicate<S: StorageBackend, O: Outside>(
    expr: &Expression,
    items: &Vec<CypherValue>,
    record: &Record,
    ctx: &Ctx<O>,
    storage: &S,
) -> (r: Result<(usize, bool), CypherError>)
    requires
        storage.valid(),
        expr is FilterPredicate,
    ensures
        tested_outcome(r) == semantics::tested(
            expr@,
            value::vals_view(items@),
            0,
            0,
            false,
            record@,
            ctx.env(),
            storage.store(),
        ),
    decreases expr@, 2nat, 0nat,
{
    let mut matching: usize = 0;
    let mut has_null = false;
    let mut i: usize = 0;
    while i < items.len()
        invariant
            storage.valid(),
            expr is FilterPredicate,
            matching <= i <= items.len(),
            semantics::tested(
                expr@,
                value::vals_view(items@),
                0,
                0,
                false,
                record@,
                ctx.env(),
                storage.store(),
            ) == semantics::tested(
                expr@,
                value::vals_view(items@),
                i as int,
                matching as int,
                has_null,
                record@,
                ctx.env(),
                storage.store(),
            ),
        decreases items.len() - i,
    {
        proof {
            assert(expr@ == expr.parts());
        }
        if let Expression::FilterPredicate { kind, variable, list, predicate } = expr {
            let inner = record.with(variable.as_str(), items[i].clone());
            let v = eval_with_params(predicate, &inner, &ctx.at(i), storage)?;
            if is_truthy(&v) {
                matching += 1;
            }
            has_null = has_null || is_null(&v);
        }
        i += 1;
    }
    Ok((matching, has_null))
}

/// What a list predicate says, given how many of its `len` items match.
pub fn list_verdict(kind: FilterPredicateKind, matching: usize, has_null: bool, len: usize) -> (r:
    CypherValue)
    ensures
        r@ == semantics::of_tested(kind, matching as int, has_null, len as int),
{
    proof {
        reveal(semantics::of_tested);
    }
    let undecided = if has_null {
        CypherValue::Null
    } else {
        CypherValue::Boolean(
            match kind {
                FilterPredicateKind::NoneOf => true,
                _ => false,
            },
        )
    };
    match kind {
        FilterPredicateKind::Any => if matching > 0 {
            CypherValue::Boolean(true)
        } else {
            undecided
        },
        FilterPredicateKind::All => if matching == len {
            CypherValue::Boolean(true)
        } else {
            undecided
        },
        FilterPredicateKind::NoneOf => if matching > 0 {
            CypherValue::Boolean(false)
        } else {
            undecided
        },
        FilterPredicateKind::Single => if matching == 1 && !has_null {
            CypherValue::Boolean(true)
        } else if matching > 1 {
            CypherValue::Boolean(false)
        } else {
            undecided
        },
    }
}

fn eval_reduce_item<S: StorageBackend, O: Outside>(
    expr: &Expression,
    item: &CypherValue,
    acc: CypherValue,
    record: &Record,
    ctx: &Ctx<O>,
    storage: &S,
) -> (r: Result<CypherValue, CypherError>)
    requires
        storage.valid(),
    ensures
        outcome(r) == semantics::reduced_item(
            expr@,
            item@,
            acc@,
            record@,
            ctx.env(),
            storage.store(),
        ),
    decreases expr@, 1nat, 0nat,
{
    proof {
        assert(expr@ == expr.parts());
    }
    match expr {
        Expression::Reduce { accumulator, init, variable, list, body } => {
            let inner = record.with(accumulator.as_str(), acc).with(variable.as_str(), item.clone());
            eval_with_params(body, &inner, ctx, storage)
        },
        _ => Ok(acc),
    }
}

fn eval_reduce<S: StorageBackend, O: Outside>(
    expr: &Expression,
    items: &Vec<CypherValue>,
    start: CypherValue,
    record: &Record,
    ctx: &Ctx<O>,
    storage: &S,
) -> (r: Result<CypherValue, CypherError>)
    requires
        storage.valid(),
    ensures
        outcome(r) == semantics::reduced(
            expr@,
            value::vals_view(items@),
            0,
            start@,
            record@,
            ctx.env(),
            storage.store(),
        ),
    decreases expr@, 2nat, 0nat,
{
    let ghost first = start@;
    let mut acc = start;
    let mut i: usize = 0;
    while i < items.len()
        invariant
            storage.valid(),
            first == start@,
                i <= items.len(),
            semantics::reduced(
                expr@,
                value::vals_view(items@),
                0,
                first,
                record@,
                ctx.env(),
                storage.store(),
            ) == semantics::reduced(
                expr@,
                value::vals_view(items@),
                i as int,
                acc@,
                record@,
                ctx.env(),
                storage.store(),
            ),
        decreases items.len() - i,
    {
        acc = eval_reduce_item(expr, &items[i], acc, record, &ctx.at(i), storage)?;
        i += 1;
    }
    Ok(acc)
}

// ---------------------------------------------------------------------------
// EXISTS
// ---------------------------------------------------------------------------

/// The view of the result of a test.
pub open spec fn bool_outcome(r: Result<bool, CypherError>) -> Result<bool, ErrV> {
    match r {
        Ok(b) => Ok(b),
        Err(e) => Err(e@),
    }
}

fn exists_properties_match<S: StorageBackend, O: Outside>(
    props: &PropertyMap,
    entries: &Vec<(MapKey, Expression)>,
    record: &Record,
    ctx: &Ctx<O>,
    storage: &S,
) -> (r: Result<bool, CypherError>)
    requires
        storage.valid(),
    ensures
        bool_outcome(r) == semantics::props_match(
            props@,
            ast::entries_view(entries@),
            0,
            record@,
            ctx.env(),
            storage.store(),
        ),
    decreases ast::entries_view(entries@), 1nat, 0nat,
{
    let mut i: usize = 0;
    while i < entries.len()
        invariant
            storage.valid(),
            i <= entries.len(),
            semantics::props_match(props@, ast::entries_view(entries@), 0, record@, ctx.env(), storage.store())
                == semantics::props_match(
                props@,
                ast::entries_view(entries@),
                i as int,
                record@,
                ctx.env(),
                storage.store(),
            ),
        decreases entries.len() - i,
    {
        if let MapKey::Identifier(k) = &entries[i].0 {
            let expected = eval_with_params(&entries[i].1, record, &ctx.at(i), storage)?;
            let actual = prop_value(props, k.as_str());
            if !equal_values(&actual, &expected) {
                return Ok(false);
            }
        }
        i += 1;
    }
    Ok(true)
}

fn exists_opt_properties_match<S: StorageBackend, O: Outside>(
    props: &PropertyMap,
    m: &Option<MapLiteral>,
    record: &Record,
    ctx: &Ctx<O>,
    storage: &S,
) -> (r: Result<bool, CypherError>)
    requires
        storage.valid(),
    ensures
        bool_outcome(r) == semantics::opt_props_match(
            props@,
            ast::opt_map(*m),
            record@,
            ctx.env(),
            storage.store(),
        ),
    decreases ast::opt_map(*m), 2nat, 0nat,
{
    match m {
        None => Ok(true),
        Some(map) => exists_properties_match(props, &map.entries, record, ctx, storage),
    }
}

/// Each label of a list is there.
pub fn has_all_labels(labels: &Vec<String>, required: &Vec<String>) -> (r: bool)
    ensures
        r == store::has_labels(text::texts_view(labels@), text::texts_view(required@), 0),
{
    let mut i: usize = 0;
    while i < required.len()
        invariant
            i <= required.len(),
            store::has_labels(text::texts_view(labels@), text::texts_view(required@), 0)
                == store::has_labels(
                text::texts_view(labels@),
                text::texts_view(required@),
                i as int,
            ),
        decreases required.len() - i,
    {
        if !list_has(labels, required[i].as_str()) {
            return false;
        }
        i += 1;
    }
    true
}

fn exists_node_matches<S: StorageBackend, O: Outside>(
    node: &Node,
    np: &NodePattern,
    record: &Record,
    ctx: &Ctx<O>,
    storage: &S,
) -> (r: Result<bool, CypherError>)
    requires
        storage.valid(),
    ensures
        bool_outcome(r) == semantics::node_fits(
            node@,
            np@,
            record@,
            ctx.env(),
            storage.store(),
        ),
    decreases np@, 3nat, 0nat,
{
    if has_all_labels(&node.labels, &np.labels) {
        exists_opt_properties_match(&node.properties, &np.properties, record, ctx, storage)
    } else {
        Ok(false)
    }
}

/// The view of the result of a search for nodes.
pub open spec fn nodes_outcome(r: Result<Vec<Node>, CypherError>) -> Result<
    Seq<value::NodeV>,
    ErrV,
> {
    match r {
        Ok(ns) => Ok(value::nodes_view(ns@)),
        Err(e) => Err(e@),
    }
}

fn exists_fitting<S: StorageBackend, O: Outside>(
    nodes: &Vec<Node>,
    np: &NodePattern,
    record: &Record,
    ctx: &Ctx<O>,
    storage: &S,
) -> (r: Result<Vec<Node>, CypherError>)
    requires
        storage.valid(),
    ensures
        nodes_outcome(r) == semantics::fitting(
            value::nodes_view(nodes@),
            0,
            seq![],
            np@,
            record@,
            ctx.env(),
            storage.store(),
        ),
    decreases np@, 4nat, 0nat,
{
    let mut out: Vec<Node> = Vec::new();
    let mut i: usize = 0;
    proof {
        assert(value::nodes_view(out@) =~= seq![]);
    }
    while i < nodes.len()
        invariant
            storage.valid(),
            i <= nodes.len(),
            semantics::fitting(
                value::nodes_view(nodes@),
                0,
                seq![],
                np@,
                record@,
                ctx.env(),
                storage.store(),
            ) == semantics::fitting(
                value::nodes_view(nodes@),
                i as int,
                value::nodes_view(out@),
                np@,
                record@,
                ctx.env(),
                storage.store(),
            ),
        decreases nodes.len() - i,
    {
        let ghost before = value::nodes_view(out@);
        if exists_node_matches(&nodes[i], np, record, &ctx.at(i), storage)? {
            let n = nodes[i].clone();
            out.push(n);
            proof {
                assert(value::nodes_view(out@) =~= before.push(value::nodes_view(nodes@)[i as int]));
            }
        }
        i += 1;
    }
    Ok(out)
}

/// The view of an optional borrowed value.
pub open spec fn opt_ref_value(o: Option<&CypherValue>) -> Option<ValV> {
    match o {
        Some(v) => Some(v@),
        None => None,
    }
}

/// What a row binds an optional variable to.
pub fn bound_value<'a>(variable: &Option<String>, record: &'a Record) -> (r: Option<&'a CypherValue>)
    ensures
        opt_ref_value(r) == semantics::bound_to(ast::opt_text(*variable), record@),
{
    match variable {
        Some(x) => record.get(x.as_str()),
        None => None,
    }
}

fn exists_node_candidates<S: StorageBackend, O: Outside>(
    np: &NodePattern,
    record: &Record,
    ctx: &Ctx<O>,
    storage: &S,
) -> (r: Result<Vec<Node>, CypherError>)
    requires
        storage.valid(),
    ensures
        nodes_outcome(r) == semantics::start_nodes(np@, record@, ctx.env(), storage.store()),
    decreases np@, 5nat, 0nat,
{
    match bound_value(&np.variable, record) {
        Some(CypherValue::Node(n)) => {
            let mut one: Vec<Node> = Vec::new();
            one.push(n.clone());
            proof {
                assert(value::nodes_view(one@) =~= seq![n@]);
            }
            exists_fitting(&one, np, record, ctx, storage)
        },
        Some(_) => {
            let none: Vec<Node> = Vec::new();
            proof {
                assert(value::nodes_view(none@) =~= seq![]);
            }
            Ok(none)
        },
        None => {
            let nodes = if np.labels.len() > 0 {
                storage.match_nodes(Some(np.labels[0].as_str()))
            } else {
                storage.match_nodes(None)
            };
            exists_fitting(&nodes, np, record, ctx, storage)
        },
    }
}

/// The relationships at a node in a direction.
pub fn edges_in_direction<S: StorageBackend>(storage: &S, id: NodeId, direction: Direction) -> (r:
    Vec<Edge>)
    requires
        storage.valid(),
    ensures
        value::edges_view(r@) == semantics::edges_at(storage.store(), id, direction),
{
    match direction {
        Direction::Outgoing => storage.outgoing_edges(id),
        Direction::Incoming => storage.incoming_edges(id),
        Direction::Undirected => {
            let mut all = storage.outgoing_edges(id);
            let mut more = storage.incoming_edges(id);
            let ghost a = all@;
            let ghost b = more@;
            all.append(&mut more);
            proof {
                assert(value::edges_view(all@) =~= value::edges_view(a) + value::edges_view(b));
            }
            all
        },
    }
}

/// The node at the other end of a relationship.
pub fn far_end(edge: &Edge, id: NodeId, direction: Direction) -> (r: NodeId)
    ensures
        r == semantics::other_end(edge@, id, direction),
{
    match direction {
        Direction::Outgoing => edge.dst,
        Direction::Incoming => edge.src,
        Direction::Undirected => if edge.src == id {
            edge.dst
        } else {
            edge.src
        },
    }
}

/// A relationship has one of the types; any will do where there are none.
pub fn type_fits(types: &Vec<String>, label: &str) -> (r: bool)
    ensures
        r == semantics::of_type(text::texts_view(types@), label@),
{
    types.len() == 0 || list_has(types, label)
}

fn exists_step<S: StorageBackend, O: Outside>(
    edge: &Edge,
    id: NodeId,
    step: &PatternChainElement,
    record: &Record,
    ctx: &Ctx<O>,
    storage: &S,
) -> (r: Result<Option<Node>, CypherError>)
    requires
        storage.valid(),
    ensures
        match r {
            Ok(o) => semantics::step_along(edge@, id, step@, record@, ctx.env(), storage.store())
                == Ok::<Option<value::NodeV>, ErrV>(backend::opt_node(o)),
            Err(e) => semantics::step_along(edge@, id, step@, record@, ctx.env(), storage.store())
                == Err::<Option<value::NodeV>, ErrV>(e@),
        },
    decreases step@, 4nat, 0nat,
{
    if !type_fits(&step.relationship.rel_types, edge.label.as_str()) {
        return Ok(None);
    }
    if !exists_opt_properties_match(
        &edge.properties,
        &step.relationship.properties,
        record,
        &ctx.at(0),
        storage,
    )? {
        return Ok(None);
    }
    let next = match storage.get_node(far_end(edge, id, step.relationship.direction)) {
        Some(n) => n,
        None => return Ok(None),
    };
    let allowed = match bound_value(&step.node.variable, record) {
        Some(CypherValue::Node(n)) => n.id == next.id,
        Some(_) => false,
        None => true,
    };
    if !allowed {
        return Ok(None);
    }
    if exists_node_matches(&next, &step.node, record, &ctx.at(1), storage)? {
        Ok(Some(next))
    } else {
        Ok(None)
    }
}

fn exists_walk_via<S: StorageBackend, O: Outside>(
    edge: &Edge,
    id: NodeId,
    chain: &Vec<PatternChainElement>,
    idx: usize,
    record: &Record,
    ctx: &Ctx<O>,
    storage: &S,
) -> (r: Result<bool, CypherError>)
    requires
        storage.valid(),
        idx < chain.len(),
    ensures
        bool_outcome(r) == semantics::walkable_via(
            edge@,
            id,
            ast::chain_view(chain@),
            idx as int,
            record@,
            ctx.env(),
            storage.store(),
        ),
    decreases ast::chain_view(chain@), 3 * (chain.len() - idx), 0nat,
{
    match exists_step(edge, id, &chain[idx], record, &ctx.at(0), storage)? {
        None => Ok(false),
        Some(next) => exists_walk_chain(next.id, chain, idx + 1, record, &ctx.at(1), storage),
    }
}

fn exists_walk_chain<S: StorageBackend, O: Outside>(
    id: NodeId,
    chain: &Vec<PatternChainElement>,
    idx: usize,
    record: &Record,
    ctx: &Ctx<O>,
    storage: &S,
) -> (r: Result<bool, CypherError>)
    requires
        storage.valid(),
        idx <= chain.len(),
    ensures
        bool_outcome(r) == semantics::walkable(
            id,
            ast::chain_view(chain@),
            idx as int,
            record@,
            ctx.env(),
            storage.store(),
        ),
    decreases ast::chain_view(chain@), 3 * (chain.len() - idx) + 2, 0nat,
{
    if idx == chain.len() {
        return Ok(true);
    }
    let edges = edges_in_direction(storage, id, chain[idx].relationship.direction);
    let ghost es = value::edges_view(edges@);
    let mut j: usize = 0;
    while j < edges.len()
        invariant
            storage.valid(),
            idx < chain.len(),
            es == value::edges_view(edges@),
            semantics::walkable(
                id,
                ast::chain_view(chain@),
                idx as int,
                record@,
                ctx.env(),
                storage.store(),
            ) == semantics::walkable_along(
                es,
                0,
                id,
                ast::chain_view(chain@),
                idx as int,
                record@,
                ctx.env(),
                storage.store(),
            ),
            j <= edges.len(),
            semantics::walkable_along(
                es,
                0,
                id,
                ast::chain_view(chain@),
                idx as int,
                record@,
                ctx.env(),
                storage.store(),
            ) == semantics::walkable_along(
                es,
                j as int,
                id,
                ast::chain_view(chain@),
                idx as int,
                record@,
                ctx.env(),
                storage.store(),
            ),
        decreases edges.len() - j,
    {
        if exists_walk_via(&edges[j], id, chain, idx, record, &ctx.at(j), storage)? {
            return Ok(true);
        }
        j += 1;
    }
    Ok(false)
}

fn exists_some_walk<S: StorageBackend, O: Outside>(
    nodes: &Vec<Node>,
    chain: &Vec<PatternChainElement>,
    record: &Record,
    ctx: &Ctx<O>,
    storage: &S,
) -> (r: Result<bool, CypherError>)
    requires
        storage.valid(),
    ensures
        bool_outcome(r) == semantics::some_walkable(
            value::nodes_view(nodes@),
            0,
            ast::chain_view(chain@),
            record@,
            ctx.env(),
            storage.store(),
        ),
    decreases ast::chain_view(chain@), 3 * chain.len() + 3, 0nat,
{
    let mut i: usize = 0;
    while i < nodes.len()
        invariant
            storage.valid(),
            i <= nodes.len(),
            semantics::some_walkable(
                value::nodes_view(nodes@),
                0,
                ast::chain_view(chain@),
                record@,
                ctx.env(),
                storage.store(),
            ) == semantics::some_walkable(
                value::nodes_view(nodes@),
                i as int,
                ast::chain_view(chain@),
                record@,
                ctx.env(),
                storage.store(),
            ),
        decreases nodes.len() - i,
    {
        if exists_walk_chain(nodes[i].id, chain, 0, record, &ctx.at(i), storage)? {
            return Ok(true);
        }
        i += 1;
    }
    Ok(false)
}

/// Some step of a chain has a variable length.
fn chain_has_range(chain: &Vec<PatternChainElement>) -> (r: bool)
    ensures
        r == semantics::has_range(ast::chain_view(chain@), 0),
{
    let mut i: usize = 0;
    while i < chain.len()
        invariant
            i <= chain.len(),
            semantics::has_range(ast::chain_view(chain@), 0) == semantics::has_range(
                ast::chain_view(chain@),
                i as int,
            ),
        decreases chain.len() - i,
    {
        if chain[i].relationship.range.is_some() {
            return true;
        }
        i += 1;
    }
    false
}

fn eval_exists<S: StorageBackend, O: Outside>(
    pattern: &PatternElement,
    record: &Record,
    ctx: &Ctx<O>,
    storage: &S,
) -> (r: Result<bool, CypherError>)
    requires
        storage.valid(),
    ensures
        bool_outcome(r) == semantics::pattern_exists(
            pattern@,
            record@,
            ctx.env(),
            storage.store(),
        ),
    decreases pattern@, 3nat, 0nat,
{
    match pattern {
        PatternElement::Node(np) => {
            let nodes = exists_node_candidates(np, record, &ctx.at(0), storage)?;
            Ok(nodes.len() > 0)
        },
        PatternElement::Chain { start, elements } => {
            if chain_has_range(elements) {
                return Err(
                    CypherError::SemanticError(
                        "EXISTS does not yet support variable-length relationships".to_owned(),
                    ),
                );
            }
            let nodes = exists_node_candidates(start, record, &ctx.at(0), storage)?;
            exists_some_walk(&nodes, elements, record, &ctx.at(1), storage)
        },
        _ => Err(
            CypherError::SemanticError(
                "EXISTS does not yet support variable-length relationships".to_owned(),
            ),
        ),
    }
}

} // verus!
