//! The grammar of expressions and patterns.
//!
//! Each rule is a function from the tokens and a place among them to what
//! stands there and the place behind it.
use crate::ast::{
    self, BinaryOp, CaseV, ChainV, CompOp, Direction, Expression, ExprV, FilterPredicateKind, KeyV,
    LitV, Literal, NodePatV, PatternV, RangeSpec, RelPatV, StringMatchOp, UnaryOp,
};
use crate::error::{CypherError, ErrV};
use crate::lexer::{self, is_reserved, make_error, Kw, Sign, Tok, Token, TokenV, TokV};
use crate::literals;
use crate::text;
use vstd::prelude::*;

verus! {

/// What a rule finds, and the place behind it.
pub type FoundV<T> = Result<(T, int), ErrV>;

// ---------------------------------------------------------------------------
// Tokens
// ---------------------------------------------------------------------------

/// The sign at a place.
pub open spec fn sign(ts: Seq<TokenV>, i: int) -> Option<Sign> {
    if 0 <= i < ts.len() {
        match ts[i].tok {
            TokV::Sign(s) => Some(s),
            _ => None,
        }
    } else {
        None
    }
}

/// The keyword at a place.
pub open spec fn kw(ts: Seq<TokenV>, i: int) -> Kw {
    if 0 <= i < ts.len() {
        match ts[i].tok {
            TokV::Word(_, k) => k,
            _ => Kw::Other,
        }
    } else {
        Kw::Other
    }
}

/// The name at a place: any word, or a name between back quotes.
pub open spec fn name(ts: Seq<TokenV>, i: int) -> Option<Seq<char>> {
    if 0 <= i < ts.len() {
        match ts[i].tok {
            TokV::Word(w, _) => Some(w),
            TokV::Quoted(w) => Some(w),
            _ => None,
        }
    } else {
        None
    }
}

/// The variable at a place: a name that is no reserved word.
pub open spec fn variable(ts: Seq<TokenV>, i: int) -> Option<Seq<char>> {
    if lexer::reserved(kw(ts, i)) {
        None
    } else {
        name(ts, i)
    }
}

/// The name of a parameter at a place.
pub open spec fn param_name(ts: Seq<TokenV>, i: int) -> Option<Seq<char>> {
    if 0 <= i < ts.len() {
        match ts[i].tok {
            TokV::Integer(s) => Some(s),
            _ => name(ts, i),
        }
    } else {
        None
    }
}

/// The error that nothing fits at a place.
pub open spec fn stuck(ts: Seq<TokenV>, i: int) -> ErrV {
    if 0 <= i < ts.len() {
        lexer::error_at("Unexpected input"@, ts[i].at as int)
    } else {
        ErrV::Parse("Unexpected end of input"@)
    }
}

/// What was found, if it takes up some of the tokens.
pub open spec fn held<T>(ts: Seq<TokenV>, i: int, r: FoundV<T>) -> FoundV<T> {
    match r {
        Ok((x, k)) => if i < k <= ts.len() {
            Ok((x, k))
        } else {
            Err(stuck(ts, i))
        },
        Err(e) => Err(e),
    }
}

pub fn fail(ts: &Vec<Token>, i: usize) -> (r: CypherError)
    ensures
        r@ == stuck(lexer::tokens_view(ts@), i as int),
{
    if i < ts.len() {
        make_error("Unexpected input", ts[i].at)
    } else {
        CypherError::ParseError("Unexpected end of input".to_owned())
    }
}

pub fn peek_sign(ts: &Vec<Token>, i: usize) -> (r: Option<Sign>)
    ensures
        r == sign(lexer::tokens_view(ts@), i as int),
        r is Some ==> i < ts.len(),
{
    if i < ts.len() {
        match &ts[i].tok {
            Tok::Sign(s) => Some(*s),
            _ => None,
        }
    } else {
        None
    }
}

pub fn is_sign(ts: &Vec<Token>, i: usize, s: Sign) -> (r: bool)
    ensures
        r == (sign(lexer::tokens_view(ts@), i as int) == Some(s)),
        r ==> i < ts.len(),
{
    match peek_sign(ts, i) {
        Some(x) => x == s,
        None => false,
    }
}

pub fn peek_kw(ts: &Vec<Token>, i: usize) -> (r: Kw)
    ensures
        r == kw(lexer::tokens_view(ts@), i as int),
        r != Kw::Other ==> i < ts.len(),
{
    if i < ts.len() {
        match &ts[i].tok {
            Tok::Word(_, k) => *k,
            _ => Kw::Other,
        }
    } else {
        Kw::Other
    }
}

pub fn is_kw(ts: &Vec<Token>, i: usize, k: Kw) -> (r: bool)
    requires
        k != Kw::Other,
    ensures
        r == (kw(lexer::tokens_view(ts@), i as int) == k),
        r ==> i < ts.len(),
{
    peek_kw(ts, i) == k
}

pub fn peek_name(ts: &Vec<Token>, i: usize) -> (r: Option<String>)
    ensures
        ast::opt_text(r) == name(lexer::tokens_view(ts@), i as int),
        r is Some ==> i < ts.len(),
{
    if i < ts.len() {
        match &ts[i].tok {
            Tok::Word(w, _) => Some(w.clone()),
            Tok::Quoted(w) => Some(w.clone()),
            _ => None,
        }
    } else {
        None
    }
}

pub fn peek_variable(ts: &Vec<Token>, i: usize) -> (r: Option<String>)
    ensures
        ast::opt_text(r) == variable(lexer::tokens_view(ts@), i as int),
        r is Some ==> i < ts.len(),
{
    if is_reserved(peek_kw(ts, i)) {
        None
    } else {
        peek_name(ts, i)
    }
}

pub fn peek_param(ts: &Vec<Token>, i: usize) -> (r: Option<String>)
    ensures
        ast::opt_text(r) == param_name(lexer::tokens_view(ts@), i as int),
        r is Some ==> i < ts.len(),
{
    if i < ts.len() {
        match &ts[i].tok {
            Tok::Integer(s) => Some(s.clone()),
            _ => peek_name(ts, i),
        }
    } else {
        None
    }
}

// ---------------------------------------------------------------------------
// Operators
// ---------------------------------------------------------------------------

/// Operators between two expressions.
#[derive(Debug, Clone, Copy, PartialEq, Eq, Structural)]
pub enum Infix {
    Or,
    Xor,
    And,
    Like,
    Compare(CompOp),
    Arith(BinaryOp),
}

/// The operator of a level at a place. Operators of a higher level bind more
/// tightly.
pub open spec fn infix_at(ts: Seq<TokenV>, i: int, n: int) -> Option<Infix> {
    if n == 0 {
        if kw(ts, i) == Kw::Or {
            Some(Infix::Or)
        } else {
            None
        }
    } else if n == 1 {
        if kw(ts, i) == Kw::Xor {
            Some(Infix::Xor)
        } else {
            None
        }
    } else if n == 2 {
        if kw(ts, i) == Kw::And {
            Some(Infix::And)
        } else {
            None
        }
    } else if n == 4 {
        match sign(ts, i) {
            Some(Sign::Eq) => Some(Infix::Compare(CompOp::Eq)),
            Some(Sign::Neq) => Some(Infix::Compare(CompOp::Neq)),
            Some(Sign::Lt) => Some(Infix::Compare(CompOp::Lt)),
            Some(Sign::Gt) => Some(Infix::Compare(CompOp::Gt)),
            Some(Sign::Le) => Some(Infix::Compare(CompOp::Lte)),
            Some(Sign::Ge) => Some(Infix::Compare(CompOp::Gte)),
            Some(Sign::Like) => Some(Infix::Like),
            _ => None,
        }
    } else if n == 6 {
        match sign(ts, i) {
            Some(Sign::Plus) => Some(Infix::Arith(BinaryOp::Add)),
            Some(Sign::Minus) => Some(Infix::Arith(BinaryOp::Sub)),
            _ => None,
        }
    } else if n == 7 {
        match sign(ts, i) {
            Some(Sign::Star) => Some(Infix::Arith(BinaryOp::Mul)),
            Some(Sign::Slash) => Some(Infix::Arith(BinaryOp::Div)),
            Some(Sign::Percent) => Some(Infix::Arith(BinaryOp::Mod)),
            _ => None,
        }
    } else {
        None
    }
}

pub open spec fn infix_expr(op: Infix, l: ExprV, r: ExprV) -> ExprV {
    match op {
        Infix::Or => ExprV::Or(Box::new(l), Box::new(r)),
        Infix::Xor => ExprV::Xor(Box::new(l), Box::new(r)),
        Infix::And => ExprV::And(Box::new(l), Box::new(r)),
        Infix::Like => ExprV::RegexMatch { expr: Box::new(l), pattern: Box::new(r) },
        Infix::Compare(c) => ExprV::Comparison { left: Box::new(l), op: c, right: Box::new(r) },
        Infix::Arith(b) => ExprV::BinaryOp { left: Box::new(l), op: b, right: Box::new(r) },
    }
}

/// STARTS WITH, ENDS WITH, CONTAINS and IN.
#[derive(Debug, Clone, Copy, PartialEq, Eq, Structural)]
pub enum TextOp {
    Match(StringMatchOp),
    In,
}

/// Such an operator at a place, and how many words it has.
pub open spec fn text_op_at(ts: Seq<TokenV>, i: int) -> Option<(TextOp, int)> {
    if kw(ts, i) == Kw::Starts && kw(ts, i + 1) == Kw::With {
        Some((TextOp::Match(StringMatchOp::StartsWith), 2))
    } else if kw(ts, i) == Kw::Ends && kw(ts, i + 1) == Kw::With {
        Some((TextOp::Match(StringMatchOp::EndsWith), 2))
    } else if kw(ts, i) == Kw::Contains {
        Some((TextOp::Match(StringMatchOp::Contains), 1))
    } else if kw(ts, i) == Kw::In {
        Some((TextOp::In, 1))
    } else {
        None
    }
}

pub open spec fn text_op_expr(op: TextOp, l: ExprV, r: ExprV) -> ExprV {
    match op {
        TextOp::Match(m) => ExprV::StringOp { left: Box::new(l), op: m, right: Box::new(r) },
        TextOp::In => ExprV::In { expr: Box::new(l), list: Box::new(r) },
    }
}

pub fn find_infix(ts: &Vec<Token>, i: usize, n: u8) -> (r: Option<Infix>)
    ensures
        r == infix_at(lexer::tokens_view(ts@), i as int, n as int),
        r is Some ==> i < ts.len(),
{
    if n == 0 {
        if is_kw(ts, i, Kw::Or) {
            Some(Infix::Or)
        } else {
            None
        }
    } else if n == 1 {
        if is_kw(ts, i, Kw::Xor) {
            Some(Infix::Xor)
        } else {
            None
        }
    } else if n == 2 {
        if is_kw(ts, i, Kw::And) {
            Some(Infix::And)
        } else {
            None
        }
    } else if n == 4 {
        match peek_sign(ts, i) {
            Some(Sign::Eq) => Some(Infix::Compare(CompOp::Eq)),
            Some(Sign::Neq) => Some(Infix::Compare(CompOp::Neq)),
            Some(Sign::Lt) => Some(Infix::Compare(CompOp::Lt)),
            Some(Sign::Gt) => Some(Infix::Compare(CompOp::Gt)),
            Some(Sign::Le) => Some(Infix::Compare(CompOp::Lte)),
            Some(Sign::Ge) => Some(Infix::Compare(CompOp::Gte)),
            Some(Sign::Like) => Some(Infix::Like),
            _ => None,
        }
    } else if n == 6 {
        match peek_sign(ts, i) {
            Some(Sign::Plus) => Some(Infix::Arith(BinaryOp::Add)),
            Some(Sign::Minus) => Some(Infix::Arith(BinaryOp::Sub)),
            _ => None,
        }
    } else if n == 7 {
        match peek_sign(ts, i) {
            Some(Sign::Star) => Some(Infix::Arith(BinaryOp::Mul)),
            Some(Sign::Slash) => Some(Infix::Arith(BinaryOp::Div)),
            Some(Sign::Percent) => Some(Infix::Arith(BinaryOp::Mod)),
            _ => None,
        }
    } else {
        None
    }
}

pub fn make_infix(op: Infix, l: Expression, r: Expression) -> (e: Expression)
    ensures
        e@ == infix_expr(op, l@, r@),
{
    let e = match op {
        Infix::Or => Expression::Or(Box::new(l), Box::new(r)),
        Infix::Xor => Expression::Xor(Box::new(l), Box::new(r)),
        Infix::And => Expression::And(Box::new(l), Box::new(r)),
        Infix::Like => Expression::RegexMatch { expr: Box::new(l), pattern: Box::new(r) },
        Infix::Compare(c) => Expression::Comparison {
            left: Box::new(l),
            op: c,
            right: Box::new(r),
        },
        Infix::Arith(b) => Expression::BinaryOp { left: Box::new(l), op: b, right: Box::new(r) },
    };
    proof {
        assert(e@ == e.parts());
    }
    e
}

pub fn find_text_op(ts: &Vec<Token>, i: usize) -> (r: Option<(TextOp, usize)>)
    ensures
        match r {
            Some((op, w)) => text_op_at(lexer::tokens_view(ts@), i as int) == Some((op, w as int))
                && i + w <= ts.len() && w > 0,
            None => text_op_at(lexer::tokens_view(ts@), i as int) is None,
        },
{
    if i >= ts.len() {
        return None;
    }
    if is_kw(ts, i, Kw::Starts) && is_kw(ts, i + 1, Kw::With) {
        Some((TextOp::Match(StringMatchOp::StartsWith), 2))
    } else if is_kw(ts, i, Kw::Ends) && is_kw(ts, i + 1, Kw::With) {
        Some((TextOp::Match(StringMatchOp::EndsWith), 2))
    } else if is_kw(ts, i, Kw::Contains) {
        Some((TextOp::Match(StringMatchOp::Contains), 1))
    } else if is_kw(ts, i, Kw::In) {
        Some((TextOp::In, 1))
    } else {
        None
    }
}

pub fn make_text_op(op: TextOp, l: Expression, r: Expression) -> (e: Expression)
    ensures
        e@ == text_op_expr(op, l@, r@),
{
    let e = match op {
        TextOp::Match(m) => Expression::StringOp { left: Box::new(l), op: m, right: Box::new(r) },
        TextOp::In => Expression::In { expr: Box::new(l), list: Box::new(r) },
    };
    proof {
        assert(e@ == e.parts());
    }
    e
}

// ---------------------------------------------------------------------------
// The rules of expressions
// ---------------------------------------------------------------------------

/// An expression.
pub open spec fn expr(ts: Seq<TokenV>, i: int) -> FoundV<ExprV>
    decreases ts.len() - i, 61int,
{
    level(ts, i, 0)
}

/// An expression with operators of a level or a higher one: OR, XOR, AND,
/// NOT, comparisons, operators on texts and lists, sums, products, powers.
pub open spec fn level(ts: Seq<TokenV>, i: int, n: int) -> FoundV<ExprV>
    decreases ts.len() - i, 60 - 2 * n,
{
    if n == 3 {
        if kw(ts, i) == Kw::Not {
            match level(ts, i + 1, 3) {
                Ok((e, k)) => Ok((ExprV::Not(Box::new(e)), k)),
                Err(x) => Err(x),
            }
        } else {
            level(ts, i, 4)
        }
    } else if n == 5 {
        tested(ts, i)
    } else if 0 <= n < 8 {
        match held(ts, i, level(ts, i, n + 1)) {
            Ok((l, k)) => infix_rest(ts, k, n, l),
            Err(x) => Err(x),
        }
    } else if n == 8 {
        power(ts, i)
    } else {
        Err(stuck(ts, i))
    }
}

/// What follows the first operand of operators of a level; they associate to
/// the left.
pub open spec fn infix_rest(ts: Seq<TokenV>, i: int, n: int, l: ExprV) -> FoundV<ExprV>
    decreases ts.len() - i, 62int,
{
    match infix_at(ts, i, n) {
        None => Ok((l, i)),
        Some(op) => match held(ts, i + 1, level(ts, i + 1, n + 1)) {
            Ok((r, k)) => infix_rest(ts, k, n, infix_expr(op, l, r)),
            Err(x) => Err(x),
        },
    }
}

/// An expression with at most one operator on texts or lists.
pub open spec fn tested(ts: Seq<TokenV>, i: int) -> FoundV<ExprV>
    decreases ts.len() - i, 49int,
{
    match held(ts, i, level(ts, i, 6)) {
        Err(x) => Err(x),
        Ok((l, k)) => match text_op_at(ts, k) {
            None => Ok((l, k)),
            Some((op, w)) => match level(ts, k + w, 6) {
                Ok((r, m)) => Ok((text_op_expr(op, l, r), m)),
                Err(x) => Err(x),
            },
        },
    }
}

/// A power; powers associate to the right.
pub open spec fn power(ts: Seq<TokenV>, i: int) -> FoundV<ExprV>
    decreases ts.len() - i, 43int,
{
    match held(ts, i, unary(ts, i)) {
        Err(x) => Err(x),
        Ok((l, k)) => if sign(ts, k) == Some(Sign::Caret) {
            match power(ts, k + 1) {
                Ok((r, m)) => Ok(
                    (
                        ExprV::BinaryOp {
                            left: Box::new(l),
                            op: BinaryOp::Pow,
                            right: Box::new(r),
                        },
                        m,
                    ),
                ),
                Err(x) => Err(x),
            }
        } else {
            Ok((l, k))
        },
    }
}

/// An expression with a sign in front of it, or none.
pub open spec fn unary(ts: Seq<TokenV>, i: int) -> FoundV<ExprV>
    decreases ts.len() - i, 42int,
{
    if sign(ts, i) == Some(Sign::Minus) || sign(ts, i) == Some(Sign::Plus) {
        let op = if sign(ts, i) == Some(Sign::Minus) {
            UnaryOp::Neg
        } else {
            UnaryOp::Pos
        };
        match postfix(ts, i + 1) {
            Ok((e, k)) => Ok((ExprV::UnaryOp { op, operand: Box::new(e) }, k)),
            Err(x) => Err(x),
        }
    } else {
        postfix(ts, i)
    }
}

/// An atom with what is asked of it.
pub open spec fn postfix(ts: Seq<TokenV>, i: int) -> FoundV<ExprV>
    decreases ts.len() - i, 41int,
{
    match held(ts, i, atom(ts, i)) {
        Ok((e, k)) => postfix_rest(ts, k, e),
        Err(x) => Err(x),
    }
}

/// What follows an atom: properties, subscripts, and a test for null.
pub open spec fn postfix_rest(ts: Seq<TokenV>, i: int, e: ExprV) -> FoundV<ExprV>
    decreases ts.len() - i, 63int,
{
    if sign(ts, i) == Some(Sign::Dot) {
        match name(ts, i + 1) {
            Some(p) => postfix_rest(ts, i + 2, ExprV::Property(Box::new(e), p)),
            None => Err(stuck(ts, i + 1)),
        }
    } else if sign(ts, i) == Some(Sign::LBrack) {
        match held(ts, i, subscript(ts, i + 1, e)) {
            Ok((f, k)) => postfix_rest(ts, k, f),
            Err(x) => Err(x),
        }
    } else if kw(ts, i) == Kw::Is && kw(ts, i + 1) == Kw::Null {
        Ok((ExprV::IsNull(Box::new(e)), i + 2))
    } else if kw(ts, i) == Kw::Is && kw(ts, i + 1) == Kw::Not && kw(ts, i + 2) == Kw::Null {
        Ok((ExprV::IsNotNull(Box::new(e)), i + 3))
    } else {
        Ok((e, i))
    }
}

/// What stands between square brackets behind an expression.
pub open spec fn subscript(ts: Seq<TokenV>, i: int, e: ExprV) -> FoundV<ExprV>
    decreases ts.len() - i, 62int,
{
    if sign(ts, i) == Some(Sign::DotDot) {
        slice(ts, i + 1, e, None)
    } else {
        match held(ts, i, expr(ts, i)) {
            Err(x) => Err(x),
            Ok((f, k)) => if sign(ts, k) == Some(Sign::RBrack) {
                Ok((ExprV::DynamicProperty { expr: Box::new(e), key: Box::new(f) }, k + 1))
            } else if sign(ts, k) == Some(Sign::DotDot) {
                slice(ts, k + 1, e, Some(Box::new(f)))
            } else {
                Err(stuck(ts, k))
            },
        }
    }
}

/// The end of a slice.
pub open spec fn slice(ts: Seq<TokenV>, i: int, e: ExprV, start: Option<Box<ExprV>>) -> FoundV<ExprV>
    decreases ts.len() - i, 62int,
{
    if sign(ts, i) == Some(Sign::RBrack) {
        Ok((ExprV::ListSlice { expr: Box::new(e), start, end: None }, i + 1))
    } else {
        match held(ts, i, expr(ts, i)) {
            Err(x) => Err(x),
            Ok((f, k)) => if sign(ts, k) == Some(Sign::RBrack) {
                Ok(
                    (
                        ExprV::ListSlice {
                            expr: Box::new(e),
                            start,
                            end: Some(Box::new(f)),
                        },
                        k + 1,
                    ),
                )
            } else {
                Err(stuck(ts, k))
            },
        }
    }
}

/// A literal, a variable, a call, or an expression in brackets.
pub open spec fn atom(ts: Seq<TokenV>, i: int) -> FoundV<ExprV>
    decreases ts.len() - i, 40int,
{
    if i < 0 || i >= ts.len() {
        Err(stuck(ts, i))
    } else {
        match ts[i].tok {
            TokV::Integer(s) => match literals::integer_value(s) {
                Ok(v) => Ok((ExprV::Literal(LitV::Integer(v as i64)), i + 1)),
                Err(x) => Err(x),
            },
            TokV::Float(s) => Ok((ExprV::Literal(LitV::Float(s)), i + 1)),
            TokV::Text(s) => match literals::string_content(s) {
                Ok(c) => Ok((ExprV::Literal(LitV::Str(c)), i + 1)),
                Err(x) => Err(x),
            },
            TokV::Quoted(w) => Ok((ExprV::Variable(w), i + 1)),
            TokV::Word(w, k) => word_atom(ts, i, w, k),
            TokV::Sign(Sign::LParen) => match held(ts, i + 1, expr(ts, i + 1)) {
                Ok((e, k)) => if sign(ts, k) == Some(Sign::RParen) {
                    Ok((e, k + 1))
                } else {
                    Err(stuck(ts, k))
                },
                Err(x) => Err(x),
            },
            TokV::Sign(Sign::LBrack) => list(ts, i),
            TokV::Sign(Sign::LBrace) => match dict(ts, i) {
                Ok((m, k)) => Ok((ExprV::Literal(LitV::Dict(m)), k)),
                Err(x) => Err(x),
            },
            TokV::Sign(Sign::Dollar) => match param_name(ts, i + 1) {
                Some(p) => Ok((ExprV::Parameter(p), i + 2)),
                None => Err(stuck(ts, i + 1)),
            },
            TokV::Sign(_) => Err(stuck(ts, i)),
        }
    }
}

/// The test on lists that a keyword names.
pub open spec fn filter_kind(k: Kw) -> Option<FilterPredicateKind> {
    if k == Kw::Any {
        Some(FilterPredicateKind::Any)
    } else if k == Kw::All {
        Some(FilterPredicateKind::All)
    } else if k == Kw::NoneOf {
        Some(FilterPredicateKind::NoneOf)
    } else if k == Kw::Single {
        Some(FilterPredicateKind::Single)
    } else {
        None
    }
}

/// A call of a function with a variable that goes through a list.
pub open spec fn goes_through(ts: Seq<TokenV>, i: int) -> bool {
    sign(ts, i + 1) == Some(Sign::LParen) && variable(ts, i + 2) is Some && kw(ts, i + 3) == Kw::In
}

/// An atom that begins with a word.
pub open spec fn word_atom(ts: Seq<TokenV>, i: int, w: Seq<char>, k: Kw) -> FoundV<ExprV>
    decreases ts.len() - i, 39int,
{
    if i < 0 || i >= ts.len() {
        Err(stuck(ts, i))
    } else if k == Kw::Case {
        case(ts, i + 1)
    } else if k == Kw::True {
        Ok((ExprV::Literal(LitV::Boolean(true)), i + 1))
    } else if k == Kw::False {
        Ok((ExprV::Literal(LitV::Boolean(false)), i + 1))
    } else if k == Kw::Null {
        Ok((ExprV::Literal(LitV::Null), i + 1))
    } else if k == Kw::Exists && sign(ts, i + 1) == Some(Sign::LBrace) {
        match held(ts, i + 2, pattern(ts, i + 2)) {
            Ok((p, m)) => if sign(ts, m) == Some(Sign::RBrace) {
                Ok((ExprV::Exists { pattern: Box::new(p) }, m + 1))
            } else {
                Err(stuck(ts, m))
            },
            Err(x) => Err(x),
        }
    } else if filter_kind(k) is Some && goes_through(ts, i) {
        filter(ts, i, filter_kind(k).unwrap())
    } else if k == Kw::Reduce && sign(ts, i + 1) == Some(Sign::LParen) && variable(ts, i + 2)
        is Some && sign(ts, i + 3) == Some(Sign::Eq) {
        reduce(ts, i)
    } else if sign(ts, i + 1) == Some(Sign::LParen) {
        call(ts, i, w)
    } else if lexer::reserved(k) {
        Err(stuck(ts, i))
    } else {
        Ok((ExprV::Variable(w), i + 1))
    }
}

/// Expressions with commas between them, behind those that are there already.
pub open spec fn exprs(ts: Seq<TokenV>, i: int, acc: Seq<ExprV>) -> FoundV<Seq<ExprV>>
    decreases ts.len() - i, 62int,
{
    match held(ts, i, expr(ts, i)) {
        Err(x) => Err(x),
        Ok((e, k)) => if sign(ts, k) == Some(Sign::Comma) {
            exprs(ts, k + 1, acc.push(e))
        } else {
            Ok((acc.push(e), k))
        },
    }
}

/// What stands between square brackets: a list, or a rule for one.
pub open spec fn list(ts: Seq<TokenV>, i: int) -> FoundV<ExprV>
    decreases ts.len() - i, 38int,
{
    if sign(ts, i) != Some(Sign::LBrack) {
        Err(stuck(ts, i))
    } else if sign(ts, i + 1) == Some(Sign::RBrack) {
        Ok((ExprV::Literal(LitV::List(seq![])), i + 2))
    } else if variable(ts, i + 1) is Some && kw(ts, i + 2) == Kw::In {
        match comprehension(ts, i) {
            Ok((e, k)) => Ok((e, k)),
            Err(_) => list_items(ts, i),
        }
    } else {
        list_items(ts, i)
    }
}

/// The items of a list.
pub open spec fn list_items(ts: Seq<TokenV>, i: int) -> FoundV<ExprV>
    decreases ts.len() - i, 37int,
{
    if sign(ts, i) != Some(Sign::LBrack) {
        Err(stuck(ts, i))
    } else {
        match held(ts, i + 1, exprs(ts, i + 1, seq![])) {
            Ok((es, k)) => if sign(ts, k) == Some(Sign::RBrack) {
                Ok((ExprV::Literal(LitV::List(es)), k + 1))
            } else {
                Err(stuck(ts, k))
            },
            Err(x) => Err(x),
        }
    }
}

/// A rule for a list: a variable that goes through another list, a test, and
/// an expression for the items.
pub open spec fn comprehension(ts: Seq<TokenV>, i: int) -> FoundV<ExprV>
    decreases ts.len() - i, 37int,
{
    match variable(ts, i + 1) {
        None => Err(stuck(ts, i + 1)),
        Some(v) => if kw(ts, i + 2) != Kw::In || i < 0 {
            Err(stuck(ts, i + 2))
        } else {
            match held(ts, i + 3, expr(ts, i + 3)) {
                Err(x) => Err(x),
                Ok((l, k)) => if kw(ts, k) == Kw::Where {
                    match held(ts, k + 1, expr(ts, k + 1)) {
                        Ok((p, m)) => comprehension_end(ts, m, v, l, Some(Box::new(p))),
                        Err(x) => Err(x),
                    }
                } else {
                    comprehension_end(ts, k, v, l, None)
                },
            }
        },
    }
}

/// The end of a rule for a list.
pub open spec fn comprehension_end(
    ts: Seq<TokenV>,
    i: int,
    v: Seq<char>,
    l: ExprV,
    p: Option<Box<ExprV>>,
) -> FoundV<ExprV>
    decreases ts.len() - i, 36int,
{
    if sign(ts, i) == Some(Sign::Pipe) {
        match held(ts, i + 1, expr(ts, i + 1)) {
            Ok((e, k)) => if sign(ts, k) == Some(Sign::RBrack) {
                Ok(
                    (
                        ExprV::ListComprehension {
                            variable: v,
                            list: Box::new(l),
                            predicate: p,
                            map_expr: Some(Box::new(e)),
                        },
                        k + 1,
                    ),
                )
            } else {
                Err(stuck(ts, k))
            },
            Err(x) => Err(x),
        }
    } else if sign(ts, i) == Some(Sign::RBrack) {
        Ok(
            (
                ExprV::ListComprehension {
                    variable: v,
                    list: Box::new(l),
                    predicate: p,
                    map_expr: None,
                },
                i + 1,
            ),
        )
    } else {
        Err(stuck(ts, i))
    }
}

/// A call of a function.
pub open spec fn call(ts: Seq<TokenV>, i: int, w: Seq<char>) -> FoundV<ExprV>
    decreases ts.len() - i, 38int,
{
    if i < 0 || sign(ts, i + 1) != Some(Sign::LParen) {
        Err(stuck(ts, i))
    } else {
        let distinct = kw(ts, i + 2) == Kw::Distinct;
        let j = if distinct {
            i + 3
        } else {
            i + 2
        };
        if sign(ts, j) == Some(Sign::RParen) {
            Ok((ExprV::FunctionCall { name: w, distinct, args: seq![] }, j + 1))
        } else if sign(ts, j) == Some(Sign::Star) && sign(ts, j + 1) == Some(Sign::RParen) {
            Ok((ExprV::FunctionCall { name: w, distinct, args: seq![] }, j + 2))
        } else {
            match held(ts, j, exprs(ts, j, seq![])) {
                Ok((args, k)) => if sign(ts, k) == Some(Sign::RParen) {
                    Ok((ExprV::FunctionCall { name: w, distinct, args }, k + 1))
                } else {
                    Err(stuck(ts, k))
                },
                Err(x) => Err(x),
            }
        }
    }
}

/// CASE, behind that word.
pub open spec fn case(ts: Seq<TokenV>, i: int) -> FoundV<ExprV>
    decreases ts.len() - i, 62int,
{
    if kw(ts, i) == Kw::When {
        case_rest(ts, i, None, seq![])
    } else {
        match held(ts, i, expr(ts, i)) {
            Ok((e, k)) => case_rest(ts, k, Some(Box::new(e)), seq![]),
            Err(x) => Err(x),
        }
    }
}

/// The alternatives of CASE, behind those that are there already.
pub open spec fn case_rest(
    ts: Seq<TokenV>,
    i: int,
    operand: Option<Box<ExprV>>,
    acc: Seq<CaseV>,
) -> FoundV<ExprV>
    decreases ts.len() - i, 36int,
{
    if kw(ts, i) == Kw::When {
        match held(ts, i + 1, expr(ts, i + 1)) {
            Err(x) => Err(x),
            Ok((w, k)) => if kw(ts, k) == Kw::ThenPart {
                match held(ts, k + 1, expr(ts, k + 1)) {
                    Err(x) => Err(x),
                    Ok((t, m)) => case_rest(
                        ts,
                        m,
                        operand,
                        acc.push(CaseV { when: w, then_expr: t }),
                    ),
                }
            } else {
                Err(stuck(ts, k))
            },
        }
    } else if acc.len() == 0 {
        Err(stuck(ts, i))
    } else if kw(ts, i) == Kw::Else {
        match held(ts, i + 1, expr(ts, i + 1)) {
            Err(x) => Err(x),
            Ok((d, k)) => if kw(ts, k) == Kw::End {
                Ok(
                    (
                        ExprV::Case { operand, alternatives: acc, default: Some(Box::new(d)) },
                        k + 1,
                    ),
                )
            } else {
                Err(stuck(ts, k))
            },
        }
    } else if kw(ts, i) == Kw::End {
        Ok((ExprV::Case { operand, alternatives: acc, default: None }, i + 1))
    } else {
        Err(stuck(ts, i))
    }
}

/// A test on the items of a list.
pub open spec fn filter(ts: Seq<TokenV>, i: int, kind: FilterPredicateKind) -> FoundV<ExprV>
    decreases ts.len() - i, 38int,
{
    if i < 0 || !goes_through(ts, i) {
        Err(stuck(ts, i))
    } else {
        match held(ts, i + 4, expr(ts, i + 4)) {
            Err(x) => Err(x),
            Ok((l, k)) => if kw(ts, k) == Kw::Where {
                match held(ts, k + 1, expr(ts, k + 1)) {
                    Err(x) => Err(x),
                    Ok((p, m)) => if sign(ts, m) == Some(Sign::RParen) {
                        Ok(
                            (
                                ExprV::FilterPredicate {
                                    kind,
                                    variable: variable(ts, i + 2).unwrap(),
                                    list: Box::new(l),
                                    predicate: Box::new(p),
                                },
                                m + 1,
                            ),
                        )
                    } else {
                        Err(stuck(ts, m))
                    },
                }
            } else {
                Err(stuck(ts, k))
            },
        }
    }
}

/// `reduce(accumulator = init, variable IN list | body)`.
pub open spec fn reduce(ts: Seq<TokenV>, i: int) -> FoundV<ExprV>
    decreases ts.len() - i, 38int,
{
    if i < 0 || variable(ts, i + 2) is None || sign(ts, i + 3) != Some(Sign::Eq) {
        Err(stuck(ts, i))
    } else {
        match held(ts, i + 4, expr(ts, i + 4)) {
            Err(x) => Err(x),
            Ok((init, k)) => if sign(ts, k) == Some(Sign::Comma) && variable(ts, k + 1) is Some
                && kw(ts, k + 2) == Kw::In {
                match held(ts, k + 3, expr(ts, k + 3)) {
                    Err(x) => Err(x),
                    Ok((l, m)) => if sign(ts, m) == Some(Sign::Pipe) {
                        match held(ts, m + 1, expr(ts, m + 1)) {
                            Err(x) => Err(x),
                            Ok((b, q)) => if sign(ts, q) == Some(Sign::RParen) {
                                Ok(
                                    (
                                        ExprV::Reduce {
                                            accumulator: variable(ts, i + 2).unwrap(),
                                            init: Box::new(init),
                                            variable: variable(ts, k + 1).unwrap(),
                                            list: Box::new(l),
                                            body: Box::new(b),
                                        },
                                        q + 1,
                                    ),
                                )
                            } else {
                                Err(stuck(ts, q))
                            },
                        }
                    } else {
                        Err(stuck(ts, m))
                    },
                }
            } else {
                Err(stuck(ts, k))
            },
        }
    }
}

/// The key of an entry of a map: a name, or a string or a parameter, which is
/// computed.
pub open spec fn map_key(ts: Seq<TokenV>, i: int) -> FoundV<KeyV> {
    if i < 0 || i >= ts.len() {
        Err(stuck(ts, i))
    } else {
        match ts[i].tok {
            TokV::Word(w, _) => Ok((KeyV::Identifier(w), i + 1)),
            TokV::Quoted(w) => Ok((KeyV::Identifier(w), i + 1)),
            TokV::Text(s) => match literals::string_content(s) {
                Ok(c) => Ok((KeyV::Expression(Box::new(ExprV::Literal(LitV::Str(c)))), i + 1)),
                Err(x) => Err(x),
            },
            TokV::Sign(Sign::Dollar) => match param_name(ts, i + 1) {
                Some(p) => Ok((KeyV::Expression(Box::new(ExprV::Parameter(p))), i + 2)),
                None => Err(stuck(ts, i + 1)),
            },
            _ => Err(stuck(ts, i)),
        }
    }
}

/// A map.
pub open spec fn dict(ts: Seq<TokenV>, i: int) -> FoundV<Seq<(KeyV, ExprV)>>
    decreases ts.len() - i, 38int,
{
    if sign(ts, i) != Some(Sign::LBrace) {
        Err(stuck(ts, i))
    } else if sign(ts, i + 1) == Some(Sign::RBrace) {
        Ok((seq![], i + 2))
    } else {
        entries(ts, i + 1, seq![])
    }
}

/// The entries of a map, behind those that are there already.
pub open spec fn entries(ts: Seq<TokenV>, i: int, acc: Seq<(KeyV, ExprV)>) -> FoundV<
    Seq<(KeyV, ExprV)>,
>
    decreases ts.len() - i, 62int,
{
    match held(ts, i, map_key(ts, i)) {
        Err(x) => Err(x),
        Ok((key, k)) => if sign(ts, k) == Some(Sign::Colon) {
            match held(ts, k + 1, expr(ts, k + 1)) {
                Err(x) => Err(x),
                Ok((e, m)) => if sign(ts, m) == Some(Sign::Comma) {
                    entries(ts, m + 1, acc.push((key, e)))
                } else if sign(ts, m) == Some(Sign::RBrace) {
                    Ok((acc.push((key, e)), m + 1))
                } else {
                    Err(stuck(ts, m))
                },
            }
        } else {
            Err(stuck(ts, k))
        },
    }
}

// ---------------------------------------------------------------------------
// The rules of patterns
// ---------------------------------------------------------------------------

/// Labels, behind those that are there already.
pub open spec fn labels(ts: Seq<TokenV>, i: int, acc: Seq<Seq<char>>) -> (Seq<Seq<char>>, int)
    decreases ts.len() - i,
{
    if sign(ts, i) == Some(Sign::Colon) && name(ts, i + 1) is Some {
        labels(ts, i + 2, acc.push(name(ts, i + 1).unwrap()))
    } else {
        (acc, i)
    }
}

pub proof fn lemma_labels(ts: Seq<TokenV>, i: int, acc: Seq<Seq<char>>)
    requires
        i <= ts.len(),
    ensures
        i <= labels(ts, i, acc).1 <= ts.len(),
    decreases ts.len() - i,
{
    if sign(ts, i) == Some(Sign::Colon) && name(ts, i + 1) is Some {
        lemma_labels(ts, i + 2, acc.push(name(ts, i + 1).unwrap()));
    }
}

/// A variable that may stand at a place, and the place behind it.
pub open spec fn maybe_variable(ts: Seq<TokenV>, i: int) -> (Option<Seq<char>>, int) {
    match variable(ts, i) {
        Some(v) => (Some(v), i + 1),
        None => (None, i),
    }
}

/// A map that may stand at a place, and the place behind it.
pub open spec fn maybe_dict(ts: Seq<TokenV>, i: int) -> FoundV<Option<Seq<(KeyV, ExprV)>>>
    decreases ts.len() - i, 39int,
{
    if sign(ts, i) == Some(Sign::LBrace) {
        match held(ts, i, dict(ts, i)) {
            Ok((m, k)) => Ok((Some(m), k)),
            Err(x) => Err(x),
        }
    } else {
        Ok((None, i))
    }
}

/// The pattern of a node.
pub open spec fn node(ts: Seq<TokenV>, i: int) -> FoundV<NodePatV>
    decreases ts.len() - i, 40int,
{
    if sign(ts, i) != Some(Sign::LParen) {
        Err(stuck(ts, i))
    } else {
        let (v, j) = maybe_variable(ts, i + 1);
        let (ls, k) = labels(ts, j, seq![]);
        proof {
            lemma_labels(ts, j, seq![]);
        }
        match maybe_dict(ts, k) {
            Err(x) => Err(x),
            Ok((properties, m)) => if sign(ts, m) == Some(Sign::RParen) {
                Ok((NodePatV { variable: v, labels: ls, properties }, m + 1))
            } else {
                Err(stuck(ts, m))
            },
        }
    }
}

/// More types of a relationship, behind those that are there already.
pub open spec fn more_types(ts: Seq<TokenV>, i: int, acc: Seq<Seq<char>>) -> (Seq<Seq<char>>, int)
    decreases ts.len() - i,
{
    if sign(ts, i) == Some(Sign::Pipe) && name(ts, i + 1) is Some {
        more_types(ts, i + 2, acc.push(name(ts, i + 1).unwrap()))
    } else if sign(ts, i) == Some(Sign::Pipe) && sign(ts, i + 1) == Some(Sign::Colon) && name(
        ts,
        i + 2,
    ) is Some {
        more_types(ts, i + 3, acc.push(name(ts, i + 2).unwrap()))
    } else {
        (acc, i)
    }
}

/// The types of a relationship.
pub open spec fn types(ts: Seq<TokenV>, i: int) -> (Seq<Seq<char>>, int) {
    if sign(ts, i) == Some(Sign::Colon) && name(ts, i + 1) is Some {
        more_types(ts, i + 2, seq![name(ts, i + 1).unwrap()])
    } else {
        (seq![], i)
    }
}

pub proof fn lemma_types(ts: Seq<TokenV>, i: int, acc: Seq<Seq<char>>)
    requires
        i <= ts.len(),
    ensures
        i <= more_types(ts, i, acc).1 <= ts.len(),
        i <= types(ts, i).1 <= ts.len(),
    decreases ts.len() - i,
{
    if sign(ts, i) == Some(Sign::Pipe) && name(ts, i + 1) is Some {
        lemma_types(ts, i + 2, acc.push(name(ts, i + 1).unwrap()));
    } else if sign(ts, i) == Some(Sign::Pipe) && sign(ts, i + 1) == Some(Sign::Colon) && name(
        ts,
        i + 2,
    ) is Some {
        lemma_types(ts, i + 3, acc.push(name(ts, i + 2).unwrap()));
    }
    if sign(ts, i) == Some(Sign::Colon) && name(ts, i + 1) is Some {
        lemma_types(ts, i + 2, seq![name(ts, i + 1).unwrap()]);
    }
}

/// A number of hops that may stand at a place, and the place behind it.
pub open spec fn hops(ts: Seq<TokenV>, i: int, what: Seq<char>) -> FoundV<Option<u64>> {
    if 0 <= i < ts.len() && ts[i].tok is Integer {
        match text::bounded_value(ts[i].tok->Integer_0, 10, u64::MAX as int) {
            Some(n) => Ok((Some(n as u64), i + 1)),
            None => Err(ErrV::Parse(what)),
        }
    } else {
        Ok((None, i))
    }
}

/// How many hops a relationship may have, if it says so: a star, behind which
/// a number, or a least and a greatest one, may stand.
pub open spec fn range(ts: Seq<TokenV>, i: int) -> FoundV<Option<RangeSpec>> {
    if sign(ts, i) != Some(Sign::Star) {
        Ok((None, i))
    } else {
        match hops(ts, i + 1, "Invalid range min"@) {
            Err(x) => Err(x),
            Ok((min, k)) => if sign(ts, k) == Some(Sign::DotDot) {
                match hops(ts, k + 1, "Invalid range max"@) {
                    Err(x) => Err(x),
                    Ok((max, m)) => Ok((Some(RangeSpec { min, max }), m)),
                }
            } else {
                Ok((Some(RangeSpec { min, max: min }), k))
            },
        }
    }
}

/// What stands between the square brackets of a relationship.
pub open spec fn detail(ts: Seq<TokenV>, i: int, direction: Direction) -> FoundV<RelPatV>
    decreases ts.len() - i, 62int,
{
    if i < 0 || i > ts.len() {
        Err(stuck(ts, i))
    } else {
        let (v, j) = maybe_variable(ts, i);
        let (rel_types, k) = types(ts, j);
        proof {
            lemma_types(ts, j, seq![]);
        }
        match range(ts, k) {
            Err(x) => Err(x),
            Ok((r, m)) => match maybe_dict(ts, m) {
                Err(x) => Err(x),
                Ok((properties, q)) => if sign(ts, q) == Some(Sign::RBrack) {
                    Ok(
                        (
                            RelPatV { variable: v, rel_types, direction, range: r, properties },
                            q + 1,
                        ),
                    )
                } else {
                    Err(stuck(ts, q))
                },
            },
        }
    }
}

/// A relationship begins at a place.
pub open spec fn rel_begins(ts: Seq<TokenV>, i: int) -> bool {
    sign(ts, i) == Some(Sign::Minus) || (sign(ts, i) == Some(Sign::Lt) && sign(ts, i + 1) == Some(
        Sign::Minus,
    ))
}

/// The direction that the arrows of a relationship give.
pub open spec fn arrows(left: bool, right: bool) -> Direction {
    if right && !left {
        Direction::Outgoing
    } else if left && !right {
        Direction::Incoming
    } else {
        Direction::Undirected
    }
}

/// The pattern of a relationship.
pub open spec fn rel(ts: Seq<TokenV>, i: int) -> FoundV<RelPatV>
    decreases ts.len() - i, 40int,
{
    if !rel_begins(ts, i) {
        Err(stuck(ts, i))
    } else {
        let left = sign(ts, i) == Some(Sign::Lt);
        let j = if left {
            i + 2
        } else {
            i + 1
        };
        match (if sign(ts, j) == Some(Sign::LBrack) {
            held(ts, j, detail(ts, j + 1, Direction::Undirected))
        } else {
            Ok(
                (
                    RelPatV {
                        variable: None,
                        rel_types: seq![],
                        direction: Direction::Undirected,
                        range: None,
                        properties: None,
                    },
                    j,
                ),
            )
        }) {
            Err(x) => Err(x),
            Ok((r, k)) => if sign(ts, k) == Some(Sign::Minus) {
                let right = sign(ts, k + 1) == Some(Sign::Gt);
                Ok(
                    (
                        RelPatV { direction: arrows(left, right), ..r },
                        if right {
                            k + 2
                        } else {
                            k + 1
                        },
                    ),
                )
            } else {
                Err(stuck(ts, k))
            },
        }
    }
}

/// Relationships with the nodes behind them, behind those that are there
/// already.
pub open spec fn chain(ts: Seq<TokenV>, i: int, acc: Seq<ChainV>) -> FoundV<Seq<ChainV>>
    decreases ts.len() - i, 41int,
{
    if rel_begins(ts, i) {
        match held(ts, i, rel(ts, i)) {
            Err(x) => Err(x),
            Ok((relationship, k)) => match held(ts, k, node(ts, k)) {
                Err(x) => Err(x),
                Ok((n, m)) => chain(ts, m, acc.push(ChainV { relationship, node: n })),
            },
        }
    } else {
        Ok((acc, i))
    }
}

/// The two nodes and the relationship of a shortest path.
pub open spec fn ends(ts: Seq<TokenV>, i: int) -> FoundV<(NodePatV, RelPatV, NodePatV)>
    decreases ts.len() - i, 41int,
{
    match held(ts, i, node(ts, i)) {
        Err(x) => Err(x),
        Ok((a, k)) => match held(ts, k, rel(ts, k)) {
            Err(x) => Err(x),
            Ok((r, m)) => match held(ts, m, node(ts, m)) {
                Err(x) => Err(x),
                Ok((b, q)) => if sign(ts, q) == Some(Sign::RParen) {
                    Ok(((a, r, b), q + 1))
                } else {
                    Err(stuck(ts, q))
                },
            },
        },
    }
}

/// A pattern.
pub open spec fn pattern(ts: Seq<TokenV>, i: int) -> FoundV<PatternV>
    decreases ts.len() - i, 62int,
{
    if kw(ts, i) == Kw::ShortestPath && sign(ts, i + 1) == Some(Sign::LParen) {
        match ends(ts, i + 2) {
            Ok((t, k)) => Ok(
                (PatternV::ShortestPath { start: t.0, relationship: t.1, end: t.2 }, k),
            ),
            Err(x) => Err(x),
        }
    } else if kw(ts, i) == Kw::AllShortestPaths && sign(ts, i + 1) == Some(Sign::LParen) {
        match ends(ts, i + 2) {
            Ok((t, k)) => Ok(
                (PatternV::AllShortestPaths { start: t.0, relationship: t.1, end: t.2 }, k),
            ),
            Err(x) => Err(x),
        }
    } else {
        match held(ts, i, node(ts, i)) {
            Err(x) => Err(x),
            Ok((start, k)) => match chain(ts, k, seq![]) {
                Err(x) => Err(x),
                Ok((elements, m)) => Ok(
                    (
                        if elements.len() == 0 {
                            PatternV::Node(start)
                        } else {
                            PatternV::Chain { start, elements }
                        },
                        m,
                    ),
                ),
            },
        }
    }
}

} // verus!
