//! From tokens to expressions and patterns.
use crate::ast::{
    self, BinaryOp, CaseAlternative, CaseV, ChainV, Direction, Expression, ExprV,
    FilterPredicateKind, KeyV, Literal, MapKey, MapLiteral, NodePatV, NodePattern,
    PatternChainElement, PatternElement, PatternV, RangeSpec, RelationshipPattern, RelPatV, UnaryOp,
};
use crate::error::{CypherError, ErrV};
use crate::grammar::{
    self, fail, find_infix, find_text_op, is_kw, is_sign, make_infix, make_text_op, peek_name,
    peek_param, peek_variable, FoundV,
};
use crate::lexer::{self, is_reserved, Kw, Sign, Tok, Token};
use crate::literals::{read_integer, read_string};
use crate::text::{self, chars_of, read_digits};
use vstd::prelude::*;

verus! {

/// The view of an expression that was found.
pub open spec fn found_expr(r: Result<(Expression, usize), CypherError>) -> FoundV<ExprV> {
    match r {
        Ok((x, k)) => Ok((x@, k as int)),
        Err(e) => Err(e@),
    }
}

/// The view of expressions that were found.
pub open spec fn found_exprs(r: Result<(Vec<Expression>, usize), CypherError>) -> FoundV<Seq<ExprV>> {
    match r {
        Ok((x, k)) => Ok((ast::exprs_view(x@), k as int)),
        Err(e) => Err(e@),
    }
}

/// The view of a key that was found.
pub open spec fn found_key(r: Result<(MapKey, usize), CypherError>) -> FoundV<KeyV> {
    match r {
        Ok((x, k)) => Ok((x@, k as int)),
        Err(e) => Err(e@),
    }
}

/// The view of a map that was found.
pub open spec fn found_dict(r: Result<(MapLiteral, usize), CypherError>) -> FoundV<Seq<(KeyV, ExprV)>> {
    match r {
        Ok((x, k)) => Ok((x@, k as int)),
        Err(e) => Err(e@),
    }
}

/// The view of a map that may have been found.
pub open spec fn found_opt_dict(r: Result<(Option<MapLiteral>, usize), CypherError>) -> FoundV<Option<Seq<(KeyV, ExprV)>>> {
    match r {
        Ok((x, k)) => Ok((ast::opt_map(x), k as int)),
        Err(e) => Err(e@),
    }
}

/// The view of the pattern of a node that was found.
pub open spec fn found_node(r: Result<(NodePattern, usize), CypherError>) -> FoundV<NodePatV> {
    match r {
        Ok((x, k)) => Ok((x@, k as int)),
        Err(e) => Err(e@),
    }
}

/// The view of the pattern of a relationship that was found.
pub open spec fn found_rel(r: Result<(RelationshipPattern, usize), CypherError>) -> FoundV<RelPatV> {
    match r {
        Ok((x, k)) => Ok((x@, k as int)),
        Err(e) => Err(e@),
    }
}

/// The view of a chain that was found.
pub open spec fn found_chain(r: Result<(Vec<PatternChainElement>, usize), CypherError>) -> FoundV<Seq<ChainV>> {
    match r {
        Ok((x, k)) => Ok((ast::chain_view(x@), k as int)),
        Err(e) => Err(e@),
    }
}

/// The view of a pattern that was found.
pub open spec fn found_pattern(r: Result<(PatternElement, usize), CypherError>) -> FoundV<PatternV> {
    match r {
        Ok((x, k)) => Ok((x@, k as int)),
        Err(e) => Err(e@),
    }
}

/// The view of the ends of a path that were found.
pub open spec fn found_ends(r: Result<((NodePattern, RelationshipPattern, NodePattern), usize), CypherError>) -> FoundV<(NodePatV, RelPatV, NodePatV)> {
    match r {
        Ok((x, k)) => Ok(((x.0@, x.1@, x.2@), k as int)),
        Err(e) => Err(e@),
    }
}

/// Finds an expression.
pub fn parse_expression(ts: &Vec<Token>, i: usize) -> (r: Result<(Expression, usize), CypherError>)
    requires
        i <= ts.len(),
    ensures
        found_expr(r) == grammar::expr(lexer::tokens_view(ts@), i as int),
        r matches Ok((_, k)) ==> i < k <= ts.len(),
    decreases ts.len() - i, 61int,
{
    parse_level(ts, i, 0)
}

fn parse_level(ts: &Vec<Token>, i: usize, n: u8) -> (r: Result<(Expression, usize), CypherError>)
    requires
        i <= ts.len(),
        n <= 8,
    ensures
        found_expr(r) == grammar::level(lexer::tokens_view(ts@), i as int, n as int),
        r matches Ok((_, k)) ==> i < k <= ts.len(),
    decreases ts.len() - i, 60 - 2 * n,
{
    if n == 3 {
        if is_kw(ts, i, Kw::Not) {
            let (e, k) = parse_level(ts, i + 1, 3)?;
            let r = Expression::Not(Box::new(e));
            proof {
                assert(r@ == r.parts());
            }
            Ok((r, k))
        } else {
            parse_level(ts, i, 4)
        }
    } else if n == 5 {
        parse_tested(ts, i)
    } else if n < 8 {
        let (l, k) = parse_level(ts, i, n + 1)?;
        parse_infix_rest(ts, k, n, l)
    } else {
        parse_power(ts, i)
    }
}

fn parse_infix_rest(ts: &Vec<Token>, i: usize, n: u8, first: Expression) -> (r: Result<
    (Expression, usize),
    CypherError,
>)
    requires
        i <= ts.len(),
        n < 8,
    ensures
        found_expr(r) == grammar::infix_rest(lexer::tokens_view(ts@), i as int, n as int, first@),
        r matches Ok((_, k)) ==> i <= k <= ts.len(),
    decreases ts.len() - i, 62int,
{
    let ghost want = grammar::infix_rest(lexer::tokens_view(ts@), i as int, n as int, first@);
    let mut l = first;
    let mut k = i;
    let mut op = find_infix(ts, k, n);
    while op.is_some()
        invariant
            i <= k <= ts.len(),
            n < 8,
            op == grammar::infix_at(lexer::tokens_view(ts@), k as int, n as int),
            op is Some ==> k < ts.len(),
            want == grammar::infix_rest(lexer::tokens_view(ts@), i as int, n as int, first@),
            want == grammar::infix_rest(lexer::tokens_view(ts@), k as int, n as int, l@),
        decreases ts.len() - k,
    {
        let x = op.unwrap();
        let (right, m) = parse_level(ts, k + 1, n + 1)?;
        l = make_infix(x, l, right);
        k = m;
        op = find_infix(ts, k, n);
    }
    Ok((l, k))
}

fn parse_tested(ts: &Vec<Token>, i: usize) -> (r: Result<(Expression, usize), CypherError>)
    requires
        i <= ts.len(),
    ensures
        found_expr(r) == grammar::tested(lexer::tokens_view(ts@), i as int),
        r matches Ok((_, k)) ==> i < k <= ts.len(),
    decreases ts.len() - i, 49int,
{
    let (l, k) = parse_level(ts, i, 6)?;
    match find_text_op(ts, k) {
        None => Ok((l, k)),
        Some((op, w)) => {
            let (right, m) = parse_level(ts, k + w, 6)?;
            Ok((make_text_op(op, l, right), m))
        },
    }
}

fn parse_power(ts: &Vec<Token>, i: usize) -> (r: Result<(Expression, usize), CypherError>)
    requires
        i <= ts.len(),
    ensures
        found_expr(r) == grammar::power(lexer::tokens_view(ts@), i as int),
        r matches Ok((_, k)) ==> i < k <= ts.len(),
    decreases ts.len() - i, 43int,
{
    let (l, k) = parse_unary(ts, i)?;
    if is_sign(ts, k, Sign::Caret) {
        let (right, m) = parse_power(ts, k + 1)?;
        let e = Expression::BinaryOp {
            left: Box::new(l),
            op: BinaryOp::Pow,
            right: Box::new(right),
        };
        proof {
            assert(e@ == e.parts());
        }
        Ok((e, m))
    } else {
        Ok((l, k))
    }
}

fn parse_unary(ts: &Vec<Token>, i: usize) -> (r: Result<(Expression, usize), CypherError>)
    requires
        i <= ts.len(),
    ensures
        found_expr(r) == grammar::unary(lexer::tokens_view(ts@), i as int),
        r matches Ok((_, k)) ==> i < k <= ts.len(),
    decreases ts.len() - i, 42int,
{
    let minus = is_sign(ts, i, Sign::Minus);
    if minus || is_sign(ts, i, Sign::Plus) {
        let op = if minus {
            UnaryOp::Neg
        } else {
            UnaryOp::Pos
        };
        let (e, k) = parse_postfix(ts, i + 1)?;
        let r = Expression::UnaryOp { op, operand: Box::new(e) };
        proof {
            assert(r@ == r.parts());
        }
        Ok((r, k))
    } else {
        parse_postfix(ts, i)
    }
}

fn parse_postfix(ts: &Vec<Token>, i: usize) -> (r: Result<(Expression, usize), CypherError>)
    requires
        i <= ts.len(),
    ensures
        found_expr(r) == grammar::postfix(lexer::tokens_view(ts@), i as int),
        r matches Ok((_, k)) ==> i < k <= ts.len(),
    decreases ts.len() - i, 41int,
{
    let (e, k) = parse_atom(ts, i)?;
    parse_postfix_rest(ts, k, e)
}

fn parse_postfix_rest(ts: &Vec<Token>, i: usize, first: Expression) -> (r: Result<
    (Expression, usize),
    CypherError,
>)
    requires
        i <= ts.len(),
    ensures
        found_expr(r) == grammar::postfix_rest(lexer::tokens_view(ts@), i as int, first@),
        r matches Ok((_, k)) ==> i <= k <= ts.len(),
    decreases ts.len() - i, 63int,
{
    let ghost want = grammar::postfix_rest(lexer::tokens_view(ts@), i as int, first@);
    let mut e = first;
    let mut k = i;
    let mut going = is_sign(ts, k, Sign::Dot) || is_sign(ts, k, Sign::LBrack);
    while going
        invariant
            i <= k <= ts.len(),
            going ==> k < ts.len(),
            going == (grammar::sign(lexer::tokens_view(ts@), k as int) == Some(Sign::Dot)
                || grammar::sign(lexer::tokens_view(ts@), k as int) == Some(Sign::LBrack)),
            want == grammar::postfix_rest(lexer::tokens_view(ts@), i as int, first@),
            want == grammar::postfix_rest(lexer::tokens_view(ts@), k as int, e@),
        decreases ts.len() - k,
    {
        if is_sign(ts, k, Sign::Dot) {
            match peek_name(ts, k + 1) {
                Some(p) => {
                    e = Expression::Property(Box::new(e), p);
                    proof {
                        assert(e@ == e.parts());
                    }
                    k = k + 2;
                },
                None => {
                    return Err(fail(ts, k + 1));
                },
            }
        } else {
            let (f, m) = parse_subscript(ts, k + 1, e)?;
            e = f;
            k = m;
        }
        going = is_sign(ts, k, Sign::Dot) || is_sign(ts, k, Sign::LBrack);
    }
    if is_kw(ts, k, Kw::Is) {
        if is_kw(ts, k + 1, Kw::Null) {
            let r = Expression::IsNull(Box::new(e));
            proof {
                assert(r@ == r.parts());
            }
            return Ok((r, k + 2));
        }
        if is_kw(ts, k + 1, Kw::Not) && is_kw(ts, k + 2, Kw::Null) {
            let r = Expression::IsNotNull(Box::new(e));
            proof {
                assert(r@ == r.parts());
            }
            return Ok((r, k + 3));
        }
    }
    Ok((e, k))
}

fn parse_subscript(ts: &Vec<Token>, i: usize, e: Expression) -> (r: Result<
    (Expression, usize),
    CypherError,
>)
    requires
        i <= ts.len(),
    ensures
        found_expr(r) == grammar::subscript(lexer::tokens_view(ts@), i as int, e@),
        r matches Ok((_, k)) ==> i < k <= ts.len(),
    decreases ts.len() - i, 62int,
{
    if is_sign(ts, i, Sign::DotDot) {
        return parse_slice_range(ts, i + 1, e, None);
    }
    let (f, k) = parse_expression(ts, i)?;
    if is_sign(ts, k, Sign::RBrack) {
        let r = Expression::DynamicProperty { expr: Box::new(e), key: Box::new(f) };
        proof {
            assert(r@ == r.parts());
        }
        Ok((r, k + 1))
    } else if is_sign(ts, k, Sign::DotDot) {
        parse_slice_range(ts, k + 1, e, Some(Box::new(f)))
    } else {
        Err(fail(ts, k))
    }
}

fn parse_slice_range(
    ts: &Vec<Token>,
    i: usize,
    e: Expression,
    start: Option<Box<Expression>>,
) -> (r: Result<(Expression, usize), CypherError>)
    requires
        i <= ts.len(),
    ensures
        found_expr(r) == grammar::slice(
            lexer::tokens_view(ts@),
            i as int,
            e@,
            ast::opt_expr(start),
        ),
        r matches Ok((_, k)) ==> i < k <= ts.len(),
    decreases ts.len() - i, 62int,
{
    if is_sign(ts, i, Sign::RBrack) {
        let r = Expression::ListSlice { expr: Box::new(e), start, end: None };
        proof {
            assert(r@ == r.parts());
        }
        return Ok((r, i + 1));
    }
    let (f, k) = parse_expression(ts, i)?;
    if is_sign(ts, k, Sign::RBrack) {
        let r = Expression::ListSlice { expr: Box::new(e), start, end: Some(Box::new(f)) };
        proof {
            assert(r@ == r.parts());
        }
        Ok((r, k + 1))
    } else {
        Err(fail(ts, k))
    }
}

fn literal(l: Literal) -> (r: Expression)
    ensures
        r@ == ExprV::Literal(l@),
{
    let r = Expression::Literal(l);
    proof {
        assert(r@ == r.parts());
    }
    r
}

fn variable_expr(x: String) -> (r: Expression)
    ensures
        r@ == ExprV::Variable(x@),
{
    let r = Expression::Variable(x);
    proof {
        assert(r@ == r.parts());
    }
    r
}

fn parameter_expr(x: String) -> (r: Expression)
    ensures
        r@ == ExprV::Parameter(x@),
{
    let r = Expression::Parameter(x);
    proof {
        assert(r@ == r.parts());
    }
    r
}

fn parse_atom(ts: &Vec<Token>, i: usize) -> (r: Result<(Expression, usize), CypherError>)
    requires
        i <= ts.len(),
    ensures
        found_expr(r) == grammar::atom(lexer::tokens_view(ts@), i as int),
        r matches Ok((_, k)) ==> i < k <= ts.len(),
    decreases ts.len() - i, 40int,
{
    if i >= ts.len() {
        return Err(fail(ts, i));
    }
    proof {
        assert(lexer::tokens_view(ts@)[i as int] == ts@[i as int]@);
    }
    match &ts[i].tok {
        Tok::Integer(s) => {
            let v = read_integer(s.as_str())?;
            Ok((literal(Literal::Integer(v)), i + 1))
        },
        Tok::Float(s) => Ok((literal(Literal::Float(s.clone())), i + 1)),
        Tok::Text(s) => {
            let c = read_string(&chars_of(s.as_str()))?;
            Ok((literal(Literal::String(c)), i + 1))
        },
        Tok::Quoted(w) => Ok((variable_expr(w.clone()), i + 1)),
        Tok::Word(w, k) => parse_word_atom(ts, i, w, *k),
        Tok::Sign(Sign::LParen) => {
            let (e, k) = parse_expression(ts, i + 1)?;
            if is_sign(ts, k, Sign::RParen) {
                Ok((e, k + 1))
            } else {
                Err(fail(ts, k))
            }
        },
        Tok::Sign(Sign::LBrack) => parse_list(ts, i),
        Tok::Sign(Sign::LBrace) => {
            let (m, k) = parse_dict(ts, i)?;
            Ok((literal(Literal::MapValue(m)), k))
        },
        Tok::Sign(Sign::Dollar) => match peek_param(ts, i + 1) {
            Some(p) => Ok((parameter_expr(p), i + 2)),
            None => Err(fail(ts, i + 1)),
        },
        Tok::Sign(_) => Err(fail(ts, i)),
    }
}

fn find_filter_kind(k: Kw) -> (r: Option<FilterPredicateKind>)
    ensures
        r == grammar::filter_kind(k),
{
    match k {
        Kw::Any => Some(FilterPredicateKind::Any),
        Kw::All => Some(FilterPredicateKind::All),
        Kw::NoneOf => Some(FilterPredicateKind::NoneOf),
        Kw::Single => Some(FilterPredicateKind::Single),
        _ => None,
    }
}

fn is_going_through(ts: &Vec<Token>, i: usize) -> (r: bool)
    requires
        i < ts.len(),
    ensures
        r == grammar::goes_through(lexer::tokens_view(ts@), i as int),
        r ==> i + 3 < ts.len(),
{
    is_sign(ts, i + 1, Sign::LParen) && peek_variable(ts, i + 2).is_some() && is_kw(
        ts,
        i + 3,
        Kw::In,
    )
}

fn is_reduction(ts: &Vec<Token>, i: usize) -> (r: bool)
    requires
        i < ts.len(),
    ensures
        r == (grammar::sign(lexer::tokens_view(ts@), i + 1) == Some(Sign::LParen)
            && grammar::variable(lexer::tokens_view(ts@), i + 2) is Some && grammar::sign(
            lexer::tokens_view(ts@),
            i + 3,
        ) == Some(Sign::Eq)),
        r ==> i + 3 < ts.len(),
{
    is_sign(ts, i + 1, Sign::LParen) && peek_variable(ts, i + 2).is_some() && is_sign(
        ts,
        i + 3,
        Sign::Eq,
    )
}

fn parse_word_atom(ts: &Vec<Token>, i: usize, w: &String, k: Kw) -> (r: Result<
    (Expression, usize),
    CypherError,
>)
    requires
        i < ts.len(),
    ensures
        found_expr(r) == grammar::word_atom(lexer::tokens_view(ts@), i as int, w@, k),
        r matches Ok((_, m)) ==> i < m <= ts.len(),
    decreases ts.len() - i, 39int,
{
    if k == Kw::Case {
        return parse_case_expression(ts, i + 1);
    }
    if k == Kw::True {
        return Ok((literal(Literal::Boolean(true)), i + 1));
    }
    if k == Kw::False {
        return Ok((literal(Literal::Boolean(false)), i + 1));
    }
    if k == Kw::Null {
        return Ok((literal(Literal::Null), i + 1));
    }
    if k == Kw::Exists && is_sign(ts, i + 1, Sign::LBrace) {
        let (p, m) = parse_pattern_element(ts, i + 2)?;
        if is_sign(ts, m, Sign::RBrace) {
            let e = Expression::Exists { pattern: Box::new(p) };
            proof {
                assert(e@ == e.parts());
            }
            return Ok((e, m + 1));
        }
        return Err(fail(ts, m));
    }
    if let Some(kind) = find_filter_kind(k) {
        if is_going_through(ts, i) {
            return parse_filter_predicate(ts, i, kind);
        }
    }
    if k == Kw::Reduce && is_reduction(ts, i) {
        return parse_reduce_expression(ts, i);
    }
    if is_sign(ts, i + 1, Sign::LParen) {
        return parse_function_invocation(ts, i, w);
    }
    if is_reserved(k) {
        return Err(fail(ts, i));
    }
    Ok((variable_expr(w.clone()), i + 1))
}

proof fn lemma_exprs_push(s: Seq<Expression>, e: Expression)
    ensures
        ast::exprs_view(s.push(e)) == ast::exprs_view(s).push(e@),
{
    assert(ast::exprs_view(s.push(e)) =~= ast::exprs_view(s).push(e@));
}

/// Finds expressions with commas between them.
pub fn parse_expressions(ts: &Vec<Token>, i: usize) -> (r: Result<(Vec<Expression>, usize), CypherError>)
    requires
        i <= ts.len(),
    ensures
        found_exprs(r) == grammar::exprs(lexer::tokens_view(ts@), i as int, seq![]),
        r matches Ok((_, k)) ==> i < k <= ts.len(),
    decreases ts.len() - i, 62int,
{
    let ghost want = grammar::exprs(lexer::tokens_view(ts@), i as int, seq![]);
    let mut out: Vec<Expression> = Vec::new();
    proof {
        assert(ast::exprs_view(out@) =~= Seq::<ExprV>::empty());
    }
    let (e, m) = parse_expression(ts, i)?;
    let mut last = e;
    let mut k = m;
    while is_sign(ts, k, Sign::Comma)
        invariant
            i < k <= ts.len(),
            want == grammar::exprs(lexer::tokens_view(ts@), i as int, seq![]),
            want == (if grammar::sign(lexer::tokens_view(ts@), k as int) == Some(Sign::Comma) {
                grammar::exprs(
                    lexer::tokens_view(ts@),
                    k + 1,
                    ast::exprs_view(out@).push(last@),
                )
            } else {
                Ok((ast::exprs_view(out@).push(last@), k as int))
            }),
        decreases ts.len() - k,
    {
        proof {
            lemma_exprs_push(out@, last);
        }
        out.push(last);
        let (f, q) = parse_expression(ts, k + 1)?;
        last = f;
        k = q;
    }
    proof {
        lemma_exprs_push(out@, last);
    }
    out.push(last);
    Ok((out, k))
}

fn parse_list(ts: &Vec<Token>, i: usize) -> (r: Result<(Expression, usize), CypherError>)
    requires
        i <= ts.len(),
    ensures
        found_expr(r) == grammar::list(lexer::tokens_view(ts@), i as int),
        r matches Ok((_, k)) ==> i < k <= ts.len(),
    decreases ts.len() - i, 38int,
{
    if !is_sign(ts, i, Sign::LBrack) {
        return Err(fail(ts, i));
    }
    if is_sign(ts, i + 1, Sign::RBrack) {
        let none: Vec<Expression> = Vec::new();
        proof {
            assert(ast::exprs_view(none@) =~= Seq::<ExprV>::empty());
        }
        return Ok((literal(Literal::List(none)), i + 2));
    }
    if peek_variable(ts, i + 1).is_some() && is_kw(ts, i + 2, Kw::In) {
        match parse_list_comprehension(ts, i) {
            Ok(r) => {
                return Ok(r);
            },
            Err(_) => {},
        }
    }
    parse_list_items(ts, i)
}

fn parse_list_items(ts: &Vec<Token>, i: usize) -> (r: Result<(Expression, usize), CypherError>)
    requires
        i <= ts.len(),
    ensures
        found_expr(r) == grammar::list_items(lexer::tokens_view(ts@), i as int),
        r matches Ok((_, k)) ==> i < k <= ts.len(),
    decreases ts.len() - i, 37int,
{
    if !is_sign(ts, i, Sign::LBrack) {
        return Err(fail(ts, i));
    }
    let (es, k) = parse_expressions(ts, i + 1)?;
    if is_sign(ts, k, Sign::RBrack) {
        Ok((literal(Literal::List(es)), k + 1))
    } else {
        Err(fail(ts, k))
    }
}

fn parse_list_comprehension(ts: &Vec<Token>, i: usize) -> (r: Result<(Expression, usize), CypherError>)
    requires
        i <= ts.len(),
        i < ts.len(),
    ensures
        found_expr(r) == grammar::comprehension(lexer::tokens_view(ts@), i as int),
        r matches Ok((_, k)) ==> i < k <= ts.len(),
    decreases ts.len() - i, 37int,
{
    match peek_variable(ts, i + 1) {
        None => Err(fail(ts, i + 1)),
        Some(v) => {
            if !is_kw(ts, i + 2, Kw::In) {
                return Err(fail(ts, i + 2));
            }
            let (l, k) = parse_expression(ts, i + 3)?;
            if is_kw(ts, k, Kw::Where) {
                let (p, m) = parse_expression(ts, k + 1)?;
                parse_comprehension_end(ts, m, v, l, Some(Box::new(p)))
            } else {
                parse_comprehension_end(ts, k, v, l, None)
            }
        },
    }
}

fn parse_comprehension_end(
    ts: &Vec<Token>,
    i: usize,
    v: String,
    l: Expression,
    p: Option<Box<Expression>>,
) -> (r: Result<(Expression, usize), CypherError>)
    requires
        i <= ts.len(),
    ensures
        found_expr(r) == grammar::comprehension_end(
            lexer::tokens_view(ts@),
            i as int,
            v@,
            l@,
            ast::opt_expr(p),
        ),
        r matches Ok((_, k)) ==> i < k <= ts.len(),
    decreases ts.len() - i, 36int,
{
    let (end, map_expr) = if is_sign(ts, i, Sign::Pipe) {
        let (e, k) = parse_expression(ts, i + 1)?;
        (k, Some(Box::new(e)))
    } else {
        (i, None)
    };
    if is_sign(ts, end, Sign::RBrack) {
        let r = Expression::ListComprehension {
            variable: v,
            list: Box::new(l),
            predicate: p,
            map_expr,
        };
        proof {
            assert(r@ == r.parts());
        }
        Ok((r, end + 1))
    } else {
        Err(fail(ts, end))
    }
}

fn parse_function_invocation(ts: &Vec<Token>, i: usize, w: &String) -> (r: Result<
    (Expression, usize),
    CypherError,
>)
    requires
        i < ts.len(),
    ensures
        found_expr(r) == grammar::call(lexer::tokens_view(ts@), i as int, w@),
        r matches Ok((_, k)) ==> i < k <= ts.len(),
    decreases ts.len() - i, 38int,
{
    if !is_sign(ts, i + 1, Sign::LParen) {
        return Err(fail(ts, i));
    }
    let distinct = is_kw(ts, i + 2, Kw::Distinct);
    let j = if distinct {
        i + 3
    } else {
        i + 2
    };
    let mut args: Vec<Expression> = Vec::new();
    let mut end = j;
    proof {
        assert(ast::exprs_view(args@) =~= Seq::<ExprV>::empty());
    }
    if is_sign(ts, j, Sign::Star) && is_sign(ts, j + 1, Sign::RParen) {
        end = j + 1;
    } else if !is_sign(ts, j, Sign::RParen) {
        let (es, k) = parse_expressions(ts, j)?;
        args = es;
        end = k;
    }
    if is_sign(ts, end, Sign::RParen) {
        let r = Expression::FunctionCall { name: w.clone(), distinct, args };
        proof {
            assert(r@ == r.parts());
        }
        Ok((r, end + 1))
    } else {
        Err(fail(ts, end))
    }
}

fn parse_case_expression(ts: &Vec<Token>, i: usize) -> (r: Result<(Expression, usize), CypherError>)
    requires
        i <= ts.len(),
    ensures
        found_expr(r) == grammar::case(lexer::tokens_view(ts@), i as int),
        r matches Ok((_, k)) ==> i < k <= ts.len(),
    decreases ts.len() - i, 62int,
{
    if is_kw(ts, i, Kw::When) {
        parse_case_rest(ts, i, None)
    } else {
        let (e, k) = parse_expression(ts, i)?;
        parse_case_rest(ts, k, Some(Box::new(e)))
    }
}

fn parse_case_alternative(ts: &Vec<Token>, i: usize) -> (r: Result<
    (CaseAlternative, usize),
    CypherError,
>)
    requires
        grammar::kw(lexer::tokens_view(ts@), i as int) == Kw::When,
        i < ts.len(),
    ensures
        match r {
            Ok((a, k)) => i < k <= ts.len() && forall|op: Option<Box<ExprV>>, acc: Seq<CaseV>|
                #[trigger]
                grammar::case_rest(lexer::tokens_view(ts@), i as int, op, acc)
                    == grammar::case_rest(
                    lexer::tokens_view(ts@),
                    k as int,
                    op,
                    acc.push(CaseV { when: a.when@, then_expr: a.then_expr@ }),
                ),
            Err(e) => forall|op: Option<Box<ExprV>>, acc: Seq<CaseV>| #[trigger]
                grammar::case_rest(lexer::tokens_view(ts@), i as int, op, acc) == Err::<
                    (ExprV, int),
                    ErrV,
                >(e@),
        },
    decreases ts.len() - i, 35int,
{
    let (when, k) = parse_expression(ts, i + 1)?;
    if !is_kw(ts, k, Kw::ThenPart) {
        return Err(fail(ts, k));
    }
    let (then_expr, m) = parse_expression(ts, k + 1)?;
    Ok((CaseAlternative { when, then_expr }, m))
}

fn parse_case_rest(ts: &Vec<Token>, i: usize, operand: Option<Box<Expression>>) -> (r: Result<
    (Expression, usize),
    CypherError,
>)
    requires
        i <= ts.len(),
    ensures
        found_expr(r) == grammar::case_rest(
            lexer::tokens_view(ts@),
            i as int,
            ast::opt_expr(operand),
            seq![],
        ),
        r matches Ok((_, k)) ==> i < k <= ts.len(),
    decreases ts.len() - i, 36int,
{
    let ghost op = ast::opt_expr(operand);
    let ghost want = grammar::case_rest(lexer::tokens_view(ts@), i as int, op, seq![]);
    let mut alternatives: Vec<CaseAlternative> = Vec::new();
    proof {
        assert(ast::cases_view(alternatives@) =~= Seq::<CaseV>::empty());
    }
    let mut k = i;
    while is_kw(ts, k, Kw::When)
        invariant
            i <= k <= ts.len(),
            op == ast::opt_expr(operand),
            alternatives.len() > 0 ==> i < k,
            want == grammar::case_rest(lexer::tokens_view(ts@), i as int, op, seq![]),
            want == grammar::case_rest(
                lexer::tokens_view(ts@),
                k as int,
                op,
                ast::cases_view(alternatives@),
            ),
        decreases ts.len() - k,
    {
        let (a, m) = parse_case_alternative(ts, k)?;
        proof {
            assert(ast::cases_view(alternatives@.push(a)) =~= ast::cases_view(
                alternatives@,
            ).push(CaseV { when: a.when@, then_expr: a.then_expr@ }));
        }
        alternatives.push(a);
        k = m;
    }
    if alternatives.len() == 0 {
        return Err(fail(ts, k));
    }
    let (end, default) = if is_kw(ts, k, Kw::Else) {
        let (d, m) = parse_expression(ts, k + 1)?;
        (m, Some(Box::new(d)))
    } else {
        (k, None)
    };
    if is_kw(ts, end, Kw::End) {
        let r = Expression::Case { operand, alternatives, default };
        proof {
            assert(r@ == r.parts());
        }
        Ok((r, end + 1))
    } else {
        Err(fail(ts, end))
    }
}

fn parse_filter_predicate(ts: &Vec<Token>, i: usize, kind: FilterPredicateKind) -> (r: Result<
    (Expression, usize),
    CypherError,
>)
    requires
        i + 3 < ts.len(),
        grammar::goes_through(lexer::tokens_view(ts@), i as int),
    ensures
        found_expr(r) == grammar::filter(lexer::tokens_view(ts@), i as int, kind),
        r matches Ok((_, k)) ==> i < k <= ts.len(),
    decreases ts.len() - i, 38int,
{
    let v = match peek_variable(ts, i + 2) {
        Some(v) => v,
        None => {
            return Err(fail(ts, i));
        },
    };
    let (l, k) = parse_expression(ts, i + 4)?;
    if !is_kw(ts, k, Kw::Where) {
        return Err(fail(ts, k));
    }
    let (p, m) = parse_expression(ts, k + 1)?;
    if is_sign(ts, m, Sign::RParen) {
        let r = Expression::FilterPredicate {
            kind,
            variable: v,
            list: Box::new(l),
            predicate: Box::new(p),
        };
        proof {
            assert(r@ == r.parts());
        }
        Ok((r, m + 1))
    } else {
        Err(fail(ts, m))
    }
}

fn parse_reduce_expression(ts: &Vec<Token>, i: usize) -> (r: Result<(Expression, usize), CypherError>)
    requires
        i + 3 < ts.len(),
    ensures
        found_expr(r) == grammar::reduce(lexer::tokens_view(ts@), i as int),
        r matches Ok((_, k)) ==> i < k <= ts.len(),
    decreases ts.len() - i, 38int,
{
    let accumulator = match peek_variable(ts, i + 2) {
        Some(v) => v,
        None => {
            return Err(fail(ts, i));
        },
    };
    if !is_sign(ts, i + 3, Sign::Eq) {
        return Err(fail(ts, i));
    }
    let (init, k) = parse_expression(ts, i + 4)?;
    if !is_sign(ts, k, Sign::Comma) {
        return Err(fail(ts, k));
    }
    let variable = match peek_variable(ts, k + 1) {
        Some(v) => v,
        None => {
            return Err(fail(ts, k));
        },
    };
    if !is_kw(ts, k + 2, Kw::In) {
        return Err(fail(ts, k));
    }
    let (l, m) = parse_expression(ts, k + 3)?;
    if !is_sign(ts, m, Sign::Pipe) {
        return Err(fail(ts, m));
    }
    let (body, q) = parse_expression(ts, m + 1)?;
    if is_sign(ts, q, Sign::RParen) {
        let r = Expression::Reduce {
            accumulator,
            init: Box::new(init),
            variable,
            list: Box::new(l),
            body: Box::new(body),
        };
        proof {
            assert(r@ == r.parts());
        }
        Ok((r, q + 1))
    } else {
        Err(fail(ts, q))
    }
}

fn parse_map_key(ts: &Vec<Token>, i: usize) -> (r: Result<(MapKey, usize), CypherError>)
    requires
        i <= ts.len(),
    ensures
        found_key(r) == grammar::map_key(lexer::tokens_view(ts@), i as int),
        r matches Ok((_, k)) ==> i < k <= ts.len(),
{
    if i >= ts.len() {
        return Err(fail(ts, i));
    }
    proof {
        assert(lexer::tokens_view(ts@)[i as int] == ts@[i as int]@);
    }
    match &ts[i].tok {
        Tok::Word(w, _) => Ok((MapKey::Identifier(w.clone()), i + 1)),
        Tok::Quoted(w) => Ok((MapKey::Identifier(w.clone()), i + 1)),
        Tok::Text(s) => {
            let c = read_string(&chars_of(s.as_str()))?;
            Ok((MapKey::Expression(Box::new(literal(Literal::String(c)))), i + 1))
        },
        Tok::Sign(Sign::Dollar) => match peek_param(ts, i + 1) {
            Some(p) => Ok((MapKey::Expression(Box::new(parameter_expr(p))), i + 2)),
            None => Err(fail(ts, i + 1)),
        },
        _ => Err(fail(ts, i)),
    }
}

/// Finds a map.
pub fn parse_dict(ts: &Vec<Token>, i: usize) -> (r: Result<(MapLiteral, usize), CypherError>)
    requires
        i <= ts.len(),
    ensures
        found_dict(r) == grammar::dict(lexer::tokens_view(ts@), i as int),
        r matches Ok((_, k)) ==> i < k <= ts.len(),
    decreases ts.len() - i, 38int,
{
    if !is_sign(ts, i, Sign::LBrace) {
        return Err(fail(ts, i));
    }
    if is_sign(ts, i + 1, Sign::RBrace) {
        let m = MapLiteral { entries: Vec::new() };
        proof {
            assert(m@ =~= Seq::<(KeyV, ExprV)>::empty());
        }
        return Ok((m, i + 2));
    }
    parse_properties(ts, i + 1)
}

fn parse_property_pair(ts: &Vec<Token>, i: usize) -> (r: Result<
    (MapKey, Expression, usize),
    CypherError,
>)
    requires
        i <= ts.len(),
    ensures
        match r {
            Ok((key, e, m)) => i < m <= ts.len() && forall|acc: Seq<(KeyV, ExprV)>| #[trigger]
                grammar::entries(lexer::tokens_view(ts@), i as int, acc) == (if grammar::sign(
                    lexer::tokens_view(ts@),
                    m as int,
                ) == Some(Sign::Comma) {
                    grammar::entries(lexer::tokens_view(ts@), m + 1, acc.push((key@, e@)))
                } else if grammar::sign(lexer::tokens_view(ts@), m as int) == Some(Sign::RBrace) {
                    Ok((acc.push((key@, e@)), m + 1))
                } else {
                    Err(grammar::stuck(lexer::tokens_view(ts@), m as int))
                }),
            Err(x) => forall|acc: Seq<(KeyV, ExprV)>| #[trigger]
                grammar::entries(lexer::tokens_view(ts@), i as int, acc) == Err::<
                    (Seq<(KeyV, ExprV)>, int),
                    ErrV,
                >(x@),
        },
    decreases ts.len() - i, 61int, 
{
    let (key, k) = parse_map_key(ts, i)?;
    if !is_sign(ts, k, Sign::Colon) {
        return Err(fail(ts, k));
    }
    let (e, m) = parse_expression(ts, k + 1)?;
    Ok((key, e, m))
}

fn parse_properties(ts: &Vec<Token>, i: usize) -> (r: Result<(MapLiteral, usize), CypherError>)
    requires
        i <= ts.len(),
    ensures
        found_dict(r) == grammar::entries(lexer::tokens_view(ts@), i as int, seq![]),
        r matches Ok((_, k)) ==> i < k <= ts.len(),
    decreases ts.len() - i, 62int,
{
    let ghost want = grammar::entries(lexer::tokens_view(ts@), i as int, seq![]);
    let mut out = MapLiteral { entries: Vec::new() };
    proof {
        assert(out@ =~= Seq::<(KeyV, ExprV)>::empty());
    }
    let mut k = i;
    loop
        invariant
            i <= k <= ts.len(),
            want == grammar::entries(lexer::tokens_view(ts@), i as int, seq![]),
            want == grammar::entries(lexer::tokens_view(ts@), k as int, out@),
        decreases ts.len() - k,
    {
        let (key, e, m) = parse_property_pair(ts, k)?;
        proof {
            assert(ast::entries_view(out.entries@.push((key, e))) =~= ast::entries_view(
                out.entries@,
            ).push((key@, e@)));
        }
        out.entries.push((key, e));
        if is_sign(ts, m, Sign::Comma) {
            k = m + 1;
        } else if is_sign(ts, m, Sign::RBrace) {
            return Ok((out, m + 1));
        } else {
            return Err(fail(ts, m));
        }
    }
}

/// Finds labels.
pub fn parse_labels(ts: &Vec<Token>, i: usize) -> (r: (Vec<String>, usize))
    requires
        i <= ts.len(),
    ensures
        (text::texts_view(r.0@), r.1 as int) == grammar::labels(
            lexer::tokens_view(ts@),
            i as int,
            seq![],
        ),
        i <= r.1 <= ts.len(),
{
    let ghost want = grammar::labels(lexer::tokens_view(ts@), i as int, seq![]);
    let mut out: Vec<String> = Vec::new();
    proof {
        assert(text::texts_view(out@) =~= Seq::<Seq<char>>::empty());
    }
    let mut k = i;
    while is_sign(ts, k, Sign::Colon)
        invariant
            i <= k <= ts.len(),
            want == grammar::labels(lexer::tokens_view(ts@), i as int, seq![]),
            want == grammar::labels(lexer::tokens_view(ts@), k as int, text::texts_view(out@)),
        decreases ts.len() - k,
    {
        match peek_name(ts, k + 1) {
            Some(x) => {
                proof {
                    assert(text::texts_view(out@.push(x)) =~= text::texts_view(out@).push(x@));
                }
                out.push(x);
                k = k + 2;
            },
            None => {
                return (out, k);
            },
        }
    }
    (out, k)
}

fn parse_maybe_variable(ts: &Vec<Token>, i: usize) -> (r: (Option<String>, usize))
    requires
        i <= ts.len(),
    ensures
        (ast::opt_text(r.0), r.1 as int) == grammar::maybe_variable(
            lexer::tokens_view(ts@),
            i as int,
        ),
        i <= r.1 <= ts.len(),
{
    match peek_variable(ts, i) {
        Some(v) => (Some(v), i + 1),
        None => (None, i),
    }
}

fn parse_maybe_dict(ts: &Vec<Token>, i: usize) -> (r: Result<(Option<MapLiteral>, usize), CypherError>)
    requires
        i <= ts.len(),
    ensures
        found_opt_dict(r) == grammar::maybe_dict(lexer::tokens_view(ts@), i as int),
        r matches Ok((_, k)) ==> i <= k <= ts.len(),
    decreases ts.len() - i, 39int,
{
    if is_sign(ts, i, Sign::LBrace) {
        let (m, k) = parse_dict(ts, i)?;
        Ok((Some(m), k))
    } else {
        Ok((None, i))
    }
}

fn parse_node_pattern(ts: &Vec<Token>, i: usize) -> (r: Result<(NodePattern, usize), CypherError>)
    requires
        i <= ts.len(),
    ensures
        found_node(r) == grammar::node(lexer::tokens_view(ts@), i as int),
        r matches Ok((_, k)) ==> i < k <= ts.len(),
    decreases ts.len() - i, 40int,
{
    if !is_sign(ts, i, Sign::LParen) {
        return Err(fail(ts, i));
    }
    let (variable, j) = parse_maybe_variable(ts, i + 1);
    let (labels, k) = parse_labels(ts, j);
    let (properties, m) = parse_maybe_dict(ts, k)?;
    if is_sign(ts, m, Sign::RParen) {
        Ok((NodePattern { variable, labels, properties }, m + 1))
    } else {
        Err(fail(ts, m))
    }
}

fn parse_more_types(ts: &Vec<Token>, i: usize, first: String) -> (r: (Vec<String>, usize))
    requires
        i <= ts.len(),
    ensures
        (text::texts_view(r.0@), r.1 as int) == grammar::more_types(
            lexer::tokens_view(ts@),
            i as int,
            seq![first@],
        ),
        i <= r.1 <= ts.len(),
{
    let ghost want = grammar::more_types(lexer::tokens_view(ts@), i as int, seq![first@]);
    let mut out: Vec<String> = Vec::new();
    let ghost one = first@;
    out.push(first);
    proof {
        assert(text::texts_view(out@) =~= seq![one]);
    }
    let mut k = i;
    while is_sign(ts, k, Sign::Pipe)
        invariant
            i <= k <= ts.len(),
            want == grammar::more_types(lexer::tokens_view(ts@), i as int, seq![first@]),
            want == grammar::more_types(
                lexer::tokens_view(ts@),
                k as int,
                text::texts_view(out@),
            ),
        decreases ts.len() - k,
    {
        let (x, m) = match peek_name(ts, k + 1) {
            Some(x) => (x, k + 2),
            None => {
                if !is_sign(ts, k + 1, Sign::Colon) {
                    return (out, k);
                }
                match peek_name(ts, k + 2) {
                    Some(x) => (x, k + 3),
                    None => {
                        return (out, k);
                    },
                }
            },
        };
        proof {
            assert(text::texts_view(out@.push(x)) =~= text::texts_view(out@).push(x@));
        }
        out.push(x);
        k = m;
    }
    (out, k)
}

fn parse_types(ts: &Vec<Token>, i: usize) -> (r: (Vec<String>, usize))
    requires
        i <= ts.len(),
    ensures
        (text::texts_view(r.0@), r.1 as int) == grammar::types(lexer::tokens_view(ts@), i as int),
        i <= r.1 <= ts.len(),
{
    if is_sign(ts, i, Sign::Colon) {
        if let Some(x) = peek_name(ts, i + 1) {
            return parse_more_types(ts, i + 2, x);
        }
    }
    let none: Vec<String> = Vec::new();
    proof {
        assert(text::texts_view(none@) =~= Seq::<Seq<char>>::empty());
    }
    (none, i)
}

fn parse_hops(ts: &Vec<Token>, i: usize, what: &str) -> (r: Result<
    (Option<u64>, usize),
    CypherError,
>)
    requires
        i <= ts.len(),
    ensures
        (match r {
            Ok((n, k)) => Ok((n, k as int)),
            Err(e) => Err(e@),
        }) == grammar::hops(lexer::tokens_view(ts@), i as int, what@),
        r matches Ok((_, k)) ==> i <= k <= ts.len(),
{
    if i < ts.len() {
        proof {
            assert(lexer::tokens_view(ts@)[i as int] == ts@[i as int]@);
        }
        if let Tok::Integer(s) = &ts[i].tok {
            let v = chars_of(s.as_str());
            proof {
                assert(v@.skip(0) =~= v@);
            }
            return match read_digits(&v, 0, 10, u64::MAX) {
                Some(n) => Ok((Some(n), i + 1)),
                None => Err(CypherError::ParseError(what.to_owned())),
            };
        }
    }
    Ok((None, i))
}

/// Finds how many hops a relationship may have.
pub fn parse_range_literal(ts: &Vec<Token>, i: usize) -> (r: Result<
    (Option<RangeSpec>, usize),
    CypherError,
>)
    requires
        i <= ts.len(),
    ensures
        (match r {
            Ok((x, k)) => Ok((x, k as int)),
            Err(e) => Err(e@),
        }) == grammar::range(lexer::tokens_view(ts@), i as int),
        r matches Ok((_, k)) ==> i <= k <= ts.len(),
{
    if !is_sign(ts, i, Sign::Star) {
        return Ok((None, i));
    }
    let (min, k) = parse_hops(ts, i + 1, "Invalid range min")?;
    if is_sign(ts, k, Sign::DotDot) {
        let (max, m) = parse_hops(ts, k + 1, "Invalid range max")?;
        Ok((Some(RangeSpec { min, max }), m))
    } else {
        Ok((Some(RangeSpec { min, max: min }), k))
    }
}

fn parse_relationship_detail(ts: &Vec<Token>, i: usize, direction: Direction) -> (r: Result<
    (RelationshipPattern, usize),
    CypherError,
>)
    requires
        i <= ts.len(),
    ensures
        found_rel(r) == grammar::detail(lexer::tokens_view(ts@), i as int, direction),
        r matches Ok((_, k)) ==> i < k <= ts.len(),
    decreases ts.len() - i, 62int,
{
    let (variable, j) = parse_maybe_variable(ts, i);
    let (rel_types, k) = parse_types(ts, j);
    let (range, m) = parse_range_literal(ts, k)?;
    let (properties, q) = parse_maybe_dict(ts, m)?;
    if is_sign(ts, q, Sign::RBrack) {
        Ok((RelationshipPattern { variable, rel_types, direction, range, properties }, q + 1))
    } else {
        Err(fail(ts, q))
    }
}

fn is_rel_beginning(ts: &Vec<Token>, i: usize) -> (r: bool)
    requires
        i <= ts.len(),
    ensures
        r == grammar::rel_begins(lexer::tokens_view(ts@), i as int),
        r ==> i < ts.len(),
{
    is_sign(ts, i, Sign::Minus) || (is_sign(ts, i, Sign::Lt) && is_sign(ts, i + 1, Sign::Minus))
}

fn direction_of(left: bool, right: bool) -> (r: Direction)
    ensures
        r == grammar::arrows(left, right),
{
    if right && !left {
        Direction::Outgoing
    } else if left && !right {
        Direction::Incoming
    } else {
        Direction::Undirected
    }
}

fn parse_relationship_pattern(ts: &Vec<Token>, i: usize) -> (r: Result<(RelationshipPattern, usize), CypherError>)
    requires
        i <= ts.len(),
    ensures
        found_rel(r) == grammar::rel(lexer::tokens_view(ts@), i as int),
        r matches Ok((_, k)) ==> i < k <= ts.len(),
    decreases ts.len() - i, 40int,
{
    if !is_rel_beginning(ts, i) {
        return Err(fail(ts, i));
    }
    let left = is_sign(ts, i, Sign::Lt);
    let j = if left {
        i + 2
    } else {
        i + 1
    };
    let (p, k) = if is_sign(ts, j, Sign::LBrack) {
        parse_relationship_detail(ts, j + 1, Direction::Undirected)?
    } else {
        let p = RelationshipPattern {
            variable: None,
            rel_types: Vec::new(),
            direction: Direction::Undirected,
            range: None,
            properties: None,
        };
        proof {
            assert(p@.rel_types =~= Seq::<Seq<char>>::empty());
        }
        (p, j)
    };
    if !is_sign(ts, k, Sign::Minus) {
        return Err(fail(ts, k));
    }
    let right = is_sign(ts, k + 1, Sign::Gt);
    let end = if right {
        k + 2
    } else {
        k + 1
    };
    Ok(
        (
            RelationshipPattern {
                variable: p.variable,
                rel_types: p.rel_types,
                direction: direction_of(left, right),
                range: p.range,
                properties: p.properties,
            },
            end,
        ),
    )
}

fn parse_chain(ts: &Vec<Token>, i: usize) -> (r: Result<(Vec<PatternChainElement>, usize), CypherError>)
    requires
        i <= ts.len(),
    ensures
        found_chain(r) == grammar::chain(lexer::tokens_view(ts@), i as int, seq![]),
        r matches Ok((_, k)) ==> i <= k <= ts.len(),
    decreases ts.len() - i, 41int,
{
    let ghost want = grammar::chain(lexer::tokens_view(ts@), i as int, seq![]);
    let mut out: Vec<PatternChainElement> = Vec::new();
    proof {
        assert(ast::chain_view(out@) =~= Seq::<ChainV>::empty());
    }
    let mut k = i;
    while is_rel_beginning(ts, k)
        invariant
            i <= k <= ts.len(),
            want == grammar::chain(lexer::tokens_view(ts@), i as int, seq![]),
            want == grammar::chain(lexer::tokens_view(ts@), k as int, ast::chain_view(out@)),
        decreases ts.len() - k,
    {
        let (relationship, m) = parse_relationship_pattern(ts, k)?;
        let (node, q) = parse_node_pattern(ts, m)?;
        let x = PatternChainElement { relationship, node };
        proof {
            assert(ast::chain_view(out@.push(x)) =~= ast::chain_view(out@).push(x@));
        }
        out.push(x);
        k = q;
    }
    Ok((out, k))
}

fn parse_ends(ts: &Vec<Token>, i: usize) -> (r: Result<((NodePattern, RelationshipPattern, NodePattern), usize), CypherError>)
    requires
        i <= ts.len(),
    ensures
        found_ends(r) == grammar::ends(lexer::tokens_view(ts@), i as int),
        r matches Ok((_, k)) ==> i < k <= ts.len(),
    decreases ts.len() - i, 41int,
{
    let (a, k) = parse_node_pattern(ts, i)?;
    let (relationship, m) = parse_relationship_pattern(ts, k)?;
    let (b, q) = parse_node_pattern(ts, m)?;
    if is_sign(ts, q, Sign::RParen) {
        Ok(((a, relationship, b), q + 1))
    } else {
        Err(fail(ts, q))
    }
}

/// Finds a pattern.
pub fn parse_pattern_element(ts: &Vec<Token>, i: usize) -> (r: Result<(PatternElement, usize), CypherError>)
    requires
        i <= ts.len(),
    ensures
        found_pattern(r) == grammar::pattern(lexer::tokens_view(ts@), i as int),
        r matches Ok((_, k)) ==> i < k <= ts.len(),
    decreases ts.len() - i, 62int,
{
    if is_kw(ts, i, Kw::ShortestPath) && is_sign(ts, i + 1, Sign::LParen) {
        let ((start, relationship, end), k) = parse_ends(ts, i + 2)?;
        return Ok((PatternElement::ShortestPath { start, relationship, end }, k));
    }
    if is_kw(ts, i, Kw::AllShortestPaths) && is_sign(ts, i + 1, Sign::LParen) {
        let ((start, relationship, end), k) = parse_ends(ts, i + 2)?;
        return Ok((PatternElement::AllShortestPaths { start, relationship, end }, k));
    }
    let (start, k) = parse_node_pattern(ts, i)?;
    let (elements, m) = parse_chain(ts, k)?;
    if elements.len() == 0 {
        Ok((PatternElement::Node(start), m))
    } else {
        Ok((PatternElement::Chain { start, elements }, m))
    }
}

} // verus!
