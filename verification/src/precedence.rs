//! Expressions are read as they are written: which operators bind more tightly
//! than others, and where brackets are needed.
use crate::ast::{BinaryOp, CompOp, ExprV, FilterPredicateKind, LitV, StringMatchOp, UnaryOp};
use crate::error::ErrV;
use crate::grammar::{self, Infix};
use crate::lexer::{Kw, Sign, TokenV, TokV};
use crate::literals;
use crate::relex;
use crate::text;
use vstd::prelude::*;

verus! {

// ---------------------------------------------------------------------------
// How expressions are written
// ---------------------------------------------------------------------------

/// How tightly the outermost operator of an expression binds, from OR, which
/// binds least, to what stands for itself.
pub open spec fn strength(e: ExprV) -> int {
    match e {
        ExprV::Or(..) => 0,
        ExprV::Xor(..) => 1,
        ExprV::And(..) => 2,
        ExprV::Not(..) => 3,
        ExprV::Comparison { .. } => 4,
        ExprV::RegexMatch { .. } => 4,
        ExprV::StringOp { .. } => 5,
        ExprV::In { .. } => 5,
        ExprV::BinaryOp { op, .. } => match op {
            BinaryOp::Add => 6,
            BinaryOp::Sub => 6,
            BinaryOp::Mul => 7,
            BinaryOp::Div => 7,
            BinaryOp::Mod => 7,
            BinaryOp::Pow => 8,
        },
        ExprV::UnaryOp { .. } => 9,
        ExprV::IsNull(..) => 10,
        ExprV::IsNotNull(..) => 10,
        ExprV::Property(..) => 11,
        ExprV::DynamicProperty { .. } => 11,
        ExprV::ListSlice { .. } => 11,
        _ => 12,
    }
}

pub open spec fn mark(s: Sign) -> Seq<TokV> {
    seq![TokV::Sign(s)]
}

/// A keyword.
pub open spec fn word(k: Kw) -> Seq<TokV> {
    seq![TokV::Word(seq![], k)]
}

/// A name that is no keyword.
pub open spec fn id(w: Seq<char>) -> Seq<TokV> {
    seq![TokV::Word(w, Kw::Other)]
}

pub open spec fn comp_mark(c: CompOp) -> Sign {
    match c {
        CompOp::Eq => Sign::Eq,
        CompOp::Neq => Sign::Neq,
        CompOp::Lt => Sign::Lt,
        CompOp::Gt => Sign::Gt,
        CompOp::Lte => Sign::Le,
        CompOp::Gte => Sign::Ge,
    }
}

pub open spec fn arith_mark(b: BinaryOp) -> Sign {
    match b {
        BinaryOp::Add => Sign::Plus,
        BinaryOp::Sub => Sign::Minus,
        BinaryOp::Mul => Sign::Star,
        BinaryOp::Div => Sign::Slash,
        BinaryOp::Mod => Sign::Percent,
        BinaryOp::Pow => Sign::Caret,
    }
}

pub open spec fn match_words(m: StringMatchOp) -> Seq<TokV> {
    match m {
        StringMatchOp::StartsWith => word(Kw::Starts) + word(Kw::With),
        StringMatchOp::EndsWith => word(Kw::Ends) + word(Kw::With),
        StringMatchOp::Contains => word(Kw::Contains),
    }
}

pub open spec fn kind_word(k: FilterPredicateKind) -> Kw {
    match k {
        FilterPredicateKind::Any => Kw::Any,
        FilterPredicateKind::All => Kw::All,
        FilterPredicateKind::NoneOf => Kw::NoneOf,
        FilterPredicateKind::Single => Kw::Single,
    }
}

/// The tokens of an expression where operators that bind less tightly than `m`
/// need brackets.
pub open spec fn text(e: ExprV, m: int) -> Seq<TokV>
    decreases e, 2nat, 0nat,
{
    if strength(e) < m {
        mark(Sign::LParen) + bare(e) + mark(Sign::RParen)
    } else {
        bare(e)
    }
}

/// The tokens of an expression without brackets around it.
pub open spec fn bare(e: ExprV) -> Seq<TokV>
    decreases e, 1nat, 0nat,
{
    match e {
        ExprV::Or(l, r) => text(*l, 0) + word(Kw::Or) + text(*r, 1),
        ExprV::Xor(l, r) => text(*l, 1) + word(Kw::Xor) + text(*r, 2),
        ExprV::And(l, r) => text(*l, 2) + word(Kw::And) + text(*r, 3),
        ExprV::Not(o) => word(Kw::Not) + text(*o, 3),
        ExprV::Comparison { left, op, right } => text(*left, 4) + mark(comp_mark(op)) + text(
            *right,
            5,
        ),
        ExprV::RegexMatch { expr, pattern } => text(*expr, 4) + mark(Sign::Like) + text(
            *pattern,
            5,
        ),
        ExprV::StringOp { left, op, right } => text(*left, 6) + match_words(op) + text(*right, 6),
        ExprV::In { expr, list } => text(*expr, 6) + word(Kw::In) + text(*list, 6),
        ExprV::BinaryOp { left, op, right } => match op {
            BinaryOp::Add => text(*left, 6) + mark(arith_mark(op)) + text(*right, 7),
            BinaryOp::Sub => text(*left, 6) + mark(arith_mark(op)) + text(*right, 7),
            BinaryOp::Pow => text(*left, 9) + mark(arith_mark(op)) + text(*right, 8),
            _ => text(*left, 7) + mark(arith_mark(op)) + text(*right, 8),
        },
        ExprV::UnaryOp { op, operand } => mark(
            if op == UnaryOp::Neg {
                Sign::Minus
            } else {
                Sign::Plus
            },
        ) + text(*operand, 10),
        ExprV::IsNull(o) => text(*o, 11) + (word(Kw::Is) + word(Kw::Null)),
        ExprV::IsNotNull(o) => text(*o, 11) + (word(Kw::Is) + word(Kw::Not) + word(Kw::Null)),
        ExprV::Property(b, p) => text(*b, 11) + (mark(Sign::Dot) + id(p)),
        ExprV::DynamicProperty { expr, key } => text(*expr, 11) + mark(Sign::LBrack) + text(*key, 0)
            + mark(Sign::RBrack),
        ExprV::Variable(x) => id(x),
        ExprV::Parameter(p) => mark(Sign::Dollar) + id(p),
        ExprV::Literal(LitV::Integer(i)) => seq![TokV::Integer(text::nat_text(i as nat))],
        ExprV::Literal(LitV::Float(s)) => seq![TokV::Float(s)],
        ExprV::Literal(LitV::Str(s)) => seq![TokV::Text(literals::quoted(s))],
        ExprV::Literal(LitV::Boolean(b)) => word(
            if b {
                Kw::True
            } else {
                Kw::False
            },
        ),
        ExprV::Literal(LitV::Null) => word(Kw::Null),
        ExprV::FunctionCall { name, distinct, args } => id(name) + mark(Sign::LParen) + (
        if distinct {
            word(Kw::Distinct)
        } else {
            seq![]
        }) + texts(args, 0) + mark(Sign::RParen),
        ExprV::FilterPredicate { kind, variable, list, predicate } => word(kind_word(kind)) + mark(
            Sign::LParen,
        ) + id(variable) + word(Kw::In) + text(*list, 0) + word(Kw::Where) + text(*predicate, 0)
            + mark(Sign::RParen),
        _ => seq![],
    }
}

/// The tokens of expressions from the `k`-th on, with commas between them.
pub open spec fn texts(es: Seq<ExprV>, k: int) -> Seq<TokV>
    decreases es, 0nat, es.len() - k,
{
    if k < 0 || k >= es.len() {
        seq![]
    } else if k + 1 == es.len() {
        text(es[k], 0)
    } else {
        text(es[k], 0) + mark(Sign::Comma) + texts(es, k + 1)
    }
}

/// An expression that is made of literals, variables, parameters, operators,
/// properties, calls with arguments and tests on lists, with no whole number
/// below zero.
pub open spec fn writable(e: ExprV) -> bool
    decreases e, 1nat, 0nat,
{
    match e {
        ExprV::Or(l, r) => writable(*l) && writable(*r),
        ExprV::Xor(l, r) => writable(*l) && writable(*r),
        ExprV::And(l, r) => writable(*l) && writable(*r),
        ExprV::Not(o) => writable(*o),
        ExprV::Comparison { left, op, right } => writable(*left) && writable(*right),
        ExprV::RegexMatch { expr, pattern } => writable(*expr) && writable(*pattern),
        ExprV::StringOp { left, op, right } => writable(*left) && writable(*right),
        ExprV::In { expr, list } => writable(*expr) && writable(*list),
        ExprV::BinaryOp { left, op, right } => writable(*left) && writable(*right),
        ExprV::UnaryOp { op, operand } => writable(*operand),
        ExprV::IsNull(o) => writable(*o),
        ExprV::IsNotNull(o) => writable(*o),
        ExprV::Property(b, p) => writable(*b),
        ExprV::DynamicProperty { expr, key } => writable(*expr) && writable(*key),
        ExprV::Variable(_) => true,
        ExprV::Parameter(_) => true,
        ExprV::Literal(LitV::Integer(i)) => i >= 0,
        ExprV::Literal(LitV::Float(_)) => true,
        ExprV::Literal(LitV::Str(_)) => true,
        ExprV::Literal(LitV::Boolean(_)) => true,
        ExprV::Literal(LitV::Null) => true,
        ExprV::FunctionCall { name, distinct, args } => args.len() > 0 && all_writable(args, 0),
        ExprV::FilterPredicate { kind, variable, list, predicate } => writable(*list) && writable(
            *predicate,
        ),
        _ => false,
    }
}

pub open spec fn all_writable(es: Seq<ExprV>, k: int) -> bool
    decreases es, 0nat, es.len() - k,
{
    if k < 0 || k >= es.len() {
        true
    } else {
        writable(es[k]) && all_writable(es, k + 1)
    }
}

// ---------------------------------------------------------------------------
// What stands among tokens
// ---------------------------------------------------------------------------

/// Two tokens are the same, but for the letters in which a keyword is written.
pub open spec fn same_token(a: TokV, b: TokV) -> bool {
    match (a, b) {
        (TokV::Word(u, k), TokV::Word(v, l)) => k == l && (k == Kw::Other ==> u == v),
        _ => a == b,
    }
}

/// Some tokens stand at a place.
pub open spec fn stands(ts: Seq<TokenV>, i: int, ks: Seq<TokV>) -> bool {
    &&& 0 <= i
    &&& i + ks.len() <= ts.len()
    &&& forall|k: int| 0 <= k < ks.len() ==> same_token((#[trigger] ts[i + k]).tok, ks[k])
}

/// How tightly what stands at a place would bind to an expression before it;
/// less than nothing where it belongs to no expression.
pub open spec fn binds(ts: Seq<TokenV>, i: int) -> int {
    if 0 <= i < ts.len() {
        match ts[i].tok {
            TokV::Word(_, k) => match k {
                Kw::Or => 0,
                Kw::Xor => 1,
                Kw::And => 2,
                Kw::Starts => 5,
                Kw::Ends => 5,
                Kw::Contains => 5,
                Kw::In => 5,
                Kw::Is => 10,
                _ => -1,
            },
            TokV::Sign(s) => match s {
                Sign::Eq => 4,
                Sign::Neq => 4,
                Sign::Lt => 4,
                Sign::Gt => 4,
                Sign::Le => 4,
                Sign::Ge => 4,
                Sign::Like => 4,
                Sign::Plus => 6,
                Sign::Minus => 6,
                Sign::Star => 7,
                Sign::Slash => 7,
                Sign::Percent => 7,
                Sign::Caret => 8,
                Sign::Dot => 10,
                Sign::LBrack => 10,
                Sign::LParen => 20,
                _ => -1,
            },
            _ => -1,
        }
    } else {
        -1
    }
}

/// What is written is read back: an expression that is written with no more
/// brackets than the strength of its operators asks for is read as itself,
/// wherever no operator follows it.
pub proof fn lemma_read_back(e: ExprV, ts: Seq<TokenV>, i: int)
    requires
        writable(e),
        stands(ts, i, text(e, 0)),
        binds(ts, i + text(e, 0).len()) < 0,
    ensures
        grammar::expr(ts, i) == Ok::<(ExprV, int), ErrV>((e, i + text(e, 0).len())),
{
    lemma_read(e, 0, ts, i);
    assert(grammar::expr(ts, i) == grammar::level(ts, i, 0));
}

/// The tokens of an expression that stands by itself.
pub closed spec fn written(e: ExprV) -> Seq<TokV> {
    text(e, 0)
}

/// An expression that stands by itself needs no brackets.
pub proof fn lemma_written(e: ExprV)
    ensures
        written(e) == text(e, 0),
{
}

/// What is written of an expression is read back. It is not nothing, and begins
/// neither with DISTINCT nor with a star.
pub proof fn lemma_written_read(e: ExprV, ts: Seq<TokenV>, i: int)
    requires
        writable(e),
        stands(ts, i, written(e)),
        binds(ts, i + written(e).len()) < 0,
    ensures
        grammar::expr(ts, i) == Ok::<(ExprV, int), ErrV>((e, i + written(e).len())),
        0 <= i < i + written(e).len() <= ts.len(),
        grammar::kw(ts, i) != Kw::Distinct,
        grammar::sign(ts, i) != Some(Sign::Star),
{
    lemma_read_back(e, ts, i);
    lemma_read(e, 0, ts, i);
}

/// An operator between two expressions.
pub enum Between {
    Or,
    Xor,
    And,
    Compare(CompOp),
    Like,
    Arith(BinaryOp),
}

/// How tightly an operator binds.
pub open spec fn tightness(o: Between) -> int {
    match o {
        Between::Or => 0,
        Between::Xor => 1,
        Between::And => 2,
        Between::Compare(_) => 4,
        Between::Like => 4,
        Between::Arith(BinaryOp::Add) => 6,
        Between::Arith(BinaryOp::Sub) => 6,
        Between::Arith(BinaryOp::Pow) => 8,
        Between::Arith(_) => 7,
    }
}

pub open spec fn sign_of(o: Between) -> Seq<TokV> {
    match o {
        Between::Or => word(Kw::Or),
        Between::Xor => word(Kw::Xor),
        Between::And => word(Kw::And),
        Between::Compare(c) => mark(comp_mark(c)),
        Between::Like => mark(Sign::Like),
        Between::Arith(b) => mark(arith_mark(b)),
    }
}

pub open spec fn joined(o: Between, l: ExprV, r: ExprV) -> ExprV {
    match o {
        Between::Or => ExprV::Or(Box::new(l), Box::new(r)),
        Between::Xor => ExprV::Xor(Box::new(l), Box::new(r)),
        Between::And => ExprV::And(Box::new(l), Box::new(r)),
        Between::Compare(c) => ExprV::Comparison { left: Box::new(l), op: c, right: Box::new(r) },
        Between::Like => ExprV::RegexMatch { expr: Box::new(l), pattern: Box::new(r) },
        Between::Arith(b) => ExprV::BinaryOp { left: Box::new(l), op: b, right: Box::new(r) },
    }
}

/// Of two operators without brackets, the one that binds more tightly takes the
/// operand between them: `a OR b AND c` is `a OR (b AND c)`, and `a AND b OR c`
/// is `(a AND b) OR c`. Of two that bind alike the first takes it, but for
/// powers.
pub proof fn lemma_precedence(
    a: ExprV,
    o: Between,
    b: ExprV,
    p: Between,
    c: ExprV,
    ts: Seq<TokenV>,
    i: int,
)
    requires
        writable(a) && writable(b) && writable(c),
        strength(a) == 12 && strength(b) == 12 && strength(c) == 12,
        stands(ts, i, bare(a) + sign_of(o) + bare(b) + sign_of(p) + bare(c)),
        binds(ts, i + bare(a).len() + bare(b).len() + bare(c).len() + 2) < 0,
    ensures
        ({
            let first = tightness(o) > tightness(p) || (tightness(o) == tightness(p) && tightness(o)
                < 8);
            grammar::expr(ts, i) == Ok::<(ExprV, int), ErrV>(
                (
                    if first {
                        joined(p, joined(o, a, b), c)
                    } else {
                        joined(o, a, joined(p, b, c))
                    },
                    i + bare(a).len() + bare(b).len() + bare(c).len() + 2,
                ),
            )
        }),
{
    let first = tightness(o) > tightness(p) || (tightness(o) == tightness(p) && tightness(o) < 8);
    let whole = bare(a) + sign_of(o) + bare(b) + sign_of(p) + bare(c);
    let l = joined(o, a, b);
    let r = joined(p, b, c);
    lemma_joined_text(o, a, b);
    lemma_joined_text(p, b, c);
    assert(whole.len() == bare(a).len() + bare(b).len() + bare(c).len() + 2);
    if first {
        let e = joined(p, l, c);
        assert(text(l, tightness(p)) == bare(l));
        lemma_joined_text(p, l, c);
        assert(text(e, 0) =~= whole);
        lemma_read_back(e, ts, i);
    } else {
        let e = joined(o, a, r);
        lemma_joined_text(o, a, r);
        assert(text(e, 0) =~= whole);
        lemma_read_back(e, ts, i);
    }
}

proof fn lemma_joined_text(o: Between, l: ExprV, r: ExprV)
    requires
        writable(l) && writable(r),
    ensures
        ({
            let e = joined(o, l, r);
            let n = tightness(o);
            &&& writable(e)
            &&& strength(e) == n
            &&& bare(e) == text(l, if n == 8 {
                9
            } else {
                n
            }) + sign_of(o) + text(r, if n == 8 {
                8
            } else {
                n + 1
            })
        }),
{
}

pub proof fn lemma_split(ts: Seq<TokenV>, i: int, a: Seq<TokV>, b: Seq<TokV>)
    requires
        stands(ts, i, a + b),
    ensures
        stands(ts, i, a),
        stands(ts, i + a.len(), b),
{
    let ab = a + b;
    assert forall|k: int| 0 <= k < a.len() implies same_token(
        (#[trigger] ts[i + k]).tok,
        a[k],
    ) by {
        assert(ab[k] == a[k]);
    }
    let j = i + a.len();
    assert forall|k: int| 0 <= k < b.len() implies same_token(
        (#[trigger] ts[j + k]).tok,
        b[k],
    ) by {
        assert(same_token(ts[i + (a.len() + k)].tok, ab[a.len() + k]));
        assert(j + k == i + (a.len() + k));
    }
}

pub proof fn lemma_one(ts: Seq<TokenV>, i: int, t: TokV)
    requires
        stands(ts, i, seq![t]),
    ensures
        0 <= i < ts.len(),
        same_token(ts[i].tok, t),
{
    assert(same_token(ts[i + 0].tok, seq![t][0]));
}

/// What an expression can begin with.
spec fn opens(ts: Seq<TokenV>, i: int) -> bool {
    0 <= i < ts.len() && match ts[i].tok {
        TokV::Word(_, k) => k == Kw::Other || k == Kw::True || k == Kw::False || k == Kw::Null || k
            == Kw::Case || k == Kw::Not || k == Kw::Any || k == Kw::All || k == Kw::NoneOf || k
            == Kw::Single || k == Kw::Reduce,
        TokV::Sign(s) => s == Sign::LParen || s == Sign::LBrack || s == Sign::Minus || s
            == Sign::Plus || s == Sign::Dollar,
        TokV::Quoted(_) => false,
        _ => true,
    }
}

/// What it begins with where only some operators may be outermost.
spec fn opens_at(ts: Seq<TokenV>, i: int, m: int) -> bool {
    &&& opens(ts, i)
    &&& m > 3 ==> grammar::kw(ts, i) != Kw::Not
    &&& m > 9 ==> grammar::sign(ts, i) != Some(Sign::Minus) && grammar::sign(ts, i) != Some(
        Sign::Plus,
    )
}

/// The expression was read at a level.
spec fn parsed(ts: Seq<TokenV>, i: int, m: int, e: ExprV, j: int) -> bool {
    if m <= 8 {
        grammar::level(ts, i, m) == Ok::<(ExprV, int), ErrV>((e, j))
    } else if m == 9 {
        grammar::unary(ts, i) == Ok::<(ExprV, int), ErrV>((e, j))
    } else if m == 10 {
        grammar::postfix(ts, i) == Ok::<(ExprV, int), ErrV>((e, j))
    } else if m == 11 {
        grammar::postfix(ts, i) == grammar::postfix_rest(ts, j, e)
    } else {
        grammar::atom(ts, i) == Ok::<(ExprV, int), ErrV>((e, j))
    }
}

/// An expression that was read at a level is read at the level below it, where
/// nothing of that level follows.
proof fn lemma_climb(ts: Seq<TokenV>, i: int, m: int, e: ExprV, j: int)
    requires
        0 <= m < 12,
        parsed(ts, i, m + 1, e, j),
        i < j <= ts.len(),
        opens_at(ts, i, m + 1),
        binds(ts, j) < m,
    ensures
        parsed(ts, i, m, e, j),
        opens_at(ts, i, m),
{
    if m == 11 {
        assert(grammar::postfix(ts, i) == grammar::postfix_rest(ts, j, e));
    } else if m == 10 {
        assert(grammar::postfix_rest(ts, j, e) == Ok::<(ExprV, int), ErrV>((e, j)));
    } else if m == 9 {
        assert(grammar::unary(ts, i) == grammar::postfix(ts, i));
    } else if m == 8 {
        assert(grammar::level(ts, i, 8) == grammar::power(ts, i));
        assert(grammar::power(ts, i) == Ok::<(ExprV, int), ErrV>((e, j)));
    } else if m == 5 {
        assert(grammar::level(ts, i, 5) == grammar::tested(ts, i));
        assert(grammar::tested(ts, i) == Ok::<(ExprV, int), ErrV>((e, j)));
    } else if m == 3 {
        assert(grammar::level(ts, i, 3) == grammar::level(ts, i, 4));
    } else {
        assert(grammar::infix_at(ts, j, m) is None);
        assert(grammar::infix_rest(ts, j, m, e) == Ok::<(ExprV, int), ErrV>((e, j)));
        assert(grammar::level(ts, i, m) == grammar::infix_rest(ts, j, m, e));
    }
}

proof fn lemma_climbs(ts: Seq<TokenV>, i: int, m: int, e: ExprV, j: int)
    requires
        0 <= m <= 12,
        parsed(ts, i, 12, e, j),
        i < j <= ts.len(),
        opens_at(ts, i, 12),
        binds(ts, j) < m,
    ensures
        parsed(ts, i, m, e, j),
        opens_at(ts, i, m),
    decreases 12 - m,
{
    if m < 12 {
        lemma_climbs(ts, i, m + 1, e, j);
        lemma_climb(ts, i, m, e, j);
    }
}

/// The operator between two operands, at one of the levels that have many.
spec fn is_infix(e: ExprV) -> bool {
    let s = strength(e);
    s == 0 || s == 1 || s == 2 || s == 4 || s == 6 || s == 7
}

spec fn left(e: ExprV) -> ExprV {
    match e {
        ExprV::Or(l, _) => *l,
        ExprV::Xor(l, _) => *l,
        ExprV::And(l, _) => *l,
        ExprV::Comparison { left, .. } => *left,
        ExprV::RegexMatch { expr, .. } => *expr,
        ExprV::BinaryOp { left, .. } => *left,
        _ => e,
    }
}

spec fn right(e: ExprV) -> ExprV {
    match e {
        ExprV::Or(_, r) => *r,
        ExprV::Xor(_, r) => *r,
        ExprV::And(_, r) => *r,
        ExprV::Comparison { right, .. } => *right,
        ExprV::RegexMatch { pattern, .. } => *pattern,
        ExprV::BinaryOp { right, .. } => *right,
        _ => e,
    }
}

spec fn op_token(e: ExprV) -> TokV {
    match e {
        ExprV::Or(..) => TokV::Word(seq![], Kw::Or),
        ExprV::Xor(..) => TokV::Word(seq![], Kw::Xor),
        ExprV::And(..) => TokV::Word(seq![], Kw::And),
        ExprV::Comparison { op, .. } => TokV::Sign(comp_mark(op)),
        ExprV::RegexMatch { .. } => TokV::Sign(Sign::Like),
        ExprV::BinaryOp { op, .. } => TokV::Sign(arith_mark(op)),
        _ => TokV::Sign(Sign::Semi),
    }
}

spec fn infix_of(e: ExprV) -> Infix {
    match e {
        ExprV::Or(..) => Infix::Or,
        ExprV::Xor(..) => Infix::Xor,
        ExprV::And(..) => Infix::And,
        ExprV::Comparison { op, .. } => Infix::Compare(op),
        ExprV::RegexMatch { .. } => Infix::Like,
        ExprV::BinaryOp { op, .. } => Infix::Arith(op),
        _ => Infix::Or,
    }
}

proof fn lemma_infix_parts(e: ExprV, ts: Seq<TokenV>, i: int)
    requires
        is_infix(e),
        writable(e),
        stands(ts, i, bare(e)),
    ensures
        ({
            let n = strength(e);
            let a = text(left(e), n);
            let b = text(right(e), n + 1);
            let k = i + a.len();
            &&& bare(e).len() == a.len() + 1 + b.len()
            &&& stands(ts, i, a)
            &&& 0 <= k < ts.len()
            &&& stands(ts, k + 1, b)
            &&& binds(ts, k) == n
            &&& grammar::infix_at(ts, k, n) == Some(infix_of(e))
            &&& grammar::infix_expr(infix_of(e), left(e), right(e)) == e
            &&& writable(left(e))
            &&& writable(right(e))
        }),
{
    let n = strength(e);
    let a = text(left(e), n);
    let b = text(right(e), n + 1);
    let o = seq![op_token(e)];
    assert(bare(e) == a + o + b);
    lemma_split(ts, i, a + o, b);
    lemma_split(ts, i, a, o);
    lemma_one(ts, i + a.len(), op_token(e));
}

/// The place of a call among those that prove what is read.
spec fn rank(e: ExprV, m: int) -> int {
    if m <= strength(e) {
        2 * (strength(e) - m) + 1
    } else {
        200
    }
}

spec fn open_rank(e: ExprV, n: int) -> int {
    if strength(e) == n {
        0
    } else {
        300
    }
}

/// What is read of an expression before operators of its own level.
proof fn lemma_open(e: ExprV, n: int, ts: Seq<TokenV>, i: int)
    requires
        n == 0 || n == 1 || n == 2 || n == 4 || n == 6 || n == 7,
        writable(e),
        stands(ts, i, text(e, n)),
        binds(ts, i + text(e, n).len()) <= n,
    ensures
        ({
            let j = i + text(e, n).len();
            &&& i < j <= ts.len()
            &&& opens_at(ts, i, n)
            &&& grammar::level(ts, i, n) == grammar::infix_rest(ts, j, n, e)
        }),
    decreases e, 3nat, open_rank(e, n),
{
    let j = i + text(e, n).len();
    if strength(e) == n {
        lemma_infix_parts(e, ts, i);
        let l = left(e);
        let r = right(e);
        let k = i + text(l, n).len();
        lemma_open(l, n, ts, i);
        lemma_read(r, n + 1, ts, k + 1);
        assert(grammar::infix_rest(ts, k, n, l) == grammar::infix_rest(ts, j, n, e));
    } else {
        assert(text(e, n) == text(e, n + 1));
        lemma_read(e, n + 1, ts, i);
        assert(grammar::level(ts, i, n) == grammar::infix_rest(ts, j, n, e));
    }
}

/// What is written is read at each level that allows it.
proof fn lemma_read(e: ExprV, m: int, ts: Seq<TokenV>, i: int)
    requires
        0 <= m <= 12,
        writable(e),
        stands(ts, i, text(e, m)),
        binds(ts, i + text(e, m).len()) < m,
    ensures
        ({
            let j = i + text(e, m).len();
            &&& i < j <= ts.len()
            &&& opens_at(ts, i, m)
            &&& parsed(ts, i, m, e, j)
        }),
    decreases e, 3nat, rank(e, m),
{
    let j = i + text(e, m).len();
    if m > strength(e) {
        let open = mark(Sign::LParen);
        let close = mark(Sign::RParen);
        let b = bare(e);
        lemma_split(ts, i, open + b, close);
        lemma_split(ts, i, open, b);
        lemma_one(ts, i, TokV::Sign(Sign::LParen));
        lemma_one(ts, j - 1, TokV::Sign(Sign::RParen));
        assert(text(e, 0) == b);
        lemma_read(e, 0, ts, i + 1);
        assert(grammar::expr(ts, i + 1) == grammar::level(ts, i + 1, 0));
        assert(grammar::atom(ts, i) == Ok::<(ExprV, int), ErrV>((e, j)));
        lemma_climbs(ts, i, m, e, j);
    } else if m < strength(e) {
        assert(text(e, m) == text(e, m + 1));
        lemma_read(e, m + 1, ts, i);
        lemma_climb(ts, i, m, e, j);
    } else if is_infix(e) {
        lemma_open(e, m, ts, i);
        assert(grammar::infix_at(ts, j, m) is None);
        assert(grammar::infix_rest(ts, j, m, e) == Ok::<(ExprV, int), ErrV>((e, j)));
    } else if m == 12 {
        lemma_atom(e, ts, i);
    } else {
        lemma_other(e, ts, i);
    }
}

/// Expressions with other operators.
proof fn lemma_other(e: ExprV, ts: Seq<TokenV>, i: int)
    requires
        writable(e),
        stands(ts, i, bare(e)),
        strength(e) == 3 || strength(e) == 5 || 8 <= strength(e) <= 11,
        binds(ts, i + bare(e).len()) < strength(e),
    ensures
        is_read(e, ts, i),
    decreases e, 3nat, 0int,
{
    match e {
        ExprV::Not(..) => {
            lemma_not(e, ts, i);
        },
        ExprV::StringOp { .. } => {
            lemma_match(e, ts, i);
        },
        ExprV::In { .. } => {
            lemma_in(e, ts, i);
        },
        ExprV::BinaryOp { .. } => {
            lemma_pow(e, ts, i);
        },
        ExprV::UnaryOp { .. } => {
            lemma_unary(e, ts, i);
        },
        ExprV::IsNull(..) => {
            lemma_null(e, ts, i);
        },
        ExprV::IsNotNull(..) => {
            lemma_not_null(e, ts, i);
        },
        ExprV::Property(..) => {
            lemma_property(e, ts, i);
        },
        ExprV::DynamicProperty { .. } => {
            lemma_dynamic(e, ts, i);
        },
        _ => {},
    }
}

/// An expression was read at its own level.
spec fn is_read(e: ExprV, ts: Seq<TokenV>, i: int) -> bool {
    let j = i + bare(e).len();
    &&& i < j <= ts.len()
    &&& opens_at(ts, i, strength(e))
    &&& parsed(ts, i, strength(e), e, j)
}

proof fn lemma_not(e: ExprV, ts: Seq<TokenV>, i: int)
    requires
        e is Not,
        writable(e),
        stands(ts, i, bare(e)),
        binds(ts, i + bare(e).len()) < strength(e),
    ensures
        is_read(e, ts, i),
    decreases e, 2nat, 0int,
{
    let j = i + bare(e).len();
    if let ExprV::Not(o) = e {
        let w = word(Kw::Not);
        let b = text(*o, 3);
        lemma_split(ts, i, w, b);
        lemma_one(ts, i, w[0]);
        lemma_read(*o, 3, ts, i + 1);
        assert(grammar::level(ts, i, 3) == Ok::<(ExprV, int), ErrV>((e, j)));
    }
}

proof fn lemma_match(e: ExprV, ts: Seq<TokenV>, i: int)
    requires
        e is StringOp,
        writable(e),
        stands(ts, i, bare(e)),
        binds(ts, i + bare(e).len()) < strength(e),
    ensures
        is_read(e, ts, i),
    decreases e, 2nat, 0int,
{
    let j = i + bare(e).len();
    if let ExprV::StringOp { left, op, right } = e {
        let a = text(*left, 6);
        let w = match_words(op);
        let b = text(*right, 6);
        lemma_split(ts, i, a + w, b);
        lemma_split(ts, i, a, w);
        lemma_match_words(op, ts, i + a.len());
        lemma_read(*left, 6, ts, i);
        lemma_read(*right, 6, ts, i + a.len() + w.len());
        lemma_tested(ts, i, *left, i + a.len(), *right, j, e);
    }
}

proof fn lemma_in(e: ExprV, ts: Seq<TokenV>, i: int)
    requires
        e is In,
        writable(e),
        stands(ts, i, bare(e)),
        binds(ts, i + bare(e).len()) < strength(e),
    ensures
        is_read(e, ts, i),
    decreases e, 2nat, 0int,
{
    let j = i + bare(e).len();
    if let ExprV::In { expr, list } = e {
        let a = text(*expr, 6);
        let w = word(Kw::In);
        let b = text(*list, 6);
        lemma_split(ts, i, a + w, b);
        lemma_split(ts, i, a, w);
        lemma_one(ts, i + a.len(), w[0]);
        lemma_read(*expr, 6, ts, i);
        lemma_read(*list, 6, ts, i + a.len() + 1);
        lemma_tested(ts, i, *expr, i + a.len(), *list, j, e);
    }
}

proof fn lemma_pow(e: ExprV, ts: Seq<TokenV>, i: int)
    requires
        e is BinaryOp && strength(e) == 8,
        writable(e),
        stands(ts, i, bare(e)),
        binds(ts, i + bare(e).len()) < strength(e),
    ensures
        is_read(e, ts, i),
    decreases e, 2nat, 0int,
{
    let j = i + bare(e).len();
    if let ExprV::BinaryOp { left, op, right } = e {
        let a = text(*left, 9);
        let w = mark(Sign::Caret);
        let b = text(*right, 8);
        assert(bare(e) == a + w + b);
        lemma_split(ts, i, a + w, b);
        lemma_split(ts, i, a, w);
        lemma_one(ts, i + a.len(), w[0]);
        lemma_read(*left, 9, ts, i);
        lemma_read(*right, 8, ts, i + a.len() + 1);
        lemma_power(ts, i, *left, i + a.len(), *right, j);
    }
}

proof fn lemma_unary(e: ExprV, ts: Seq<TokenV>, i: int)
    requires
        e is UnaryOp,
        writable(e),
        stands(ts, i, bare(e)),
        binds(ts, i + bare(e).len()) < strength(e),
    ensures
        is_read(e, ts, i),
    decreases e, 2nat, 0int,
{
    let j = i + bare(e).len();
    if let ExprV::UnaryOp { op, operand } = e {
        let s = if op == UnaryOp::Neg {
            Sign::Minus
        } else {
            Sign::Plus
        };
        let w = mark(s);
        let b = text(*operand, 10);
        assert(bare(e) == w + b);
        lemma_split(ts, i, w, b);
        lemma_one(ts, i, w[0]);
        lemma_read(*operand, 10, ts, i + 1);
        assert(grammar::unary(ts, i) == Ok::<(ExprV, int), ErrV>((e, j)));
    }
}

proof fn lemma_null(e: ExprV, ts: Seq<TokenV>, i: int)
    requires
        e is IsNull,
        writable(e),
        stands(ts, i, bare(e)),
        binds(ts, i + bare(e).len()) < strength(e),
    ensures
        is_read(e, ts, i),
    decreases e, 2nat, 0int,
{
    let j = i + bare(e).len();
    if let ExprV::IsNull(o) = e {
        let a = text(*o, 11);
        let w = word(Kw::Is);
        let z = word(Kw::Null);
        let k = i + a.len();
        lemma_split(ts, i, a, w + z);
        lemma_split(ts, k, w, z);
        lemma_one(ts, k, w[0]);
        lemma_one(ts, k + 1, z[0]);
        lemma_read(*o, 11, ts, i);
        assert(grammar::postfix_rest(ts, k, *o) == Ok::<(ExprV, int), ErrV>((e, j)));
    }
}

proof fn lemma_not_null(e: ExprV, ts: Seq<TokenV>, i: int)
    requires
        e is IsNotNull,
        writable(e),
        stands(ts, i, bare(e)),
        binds(ts, i + bare(e).len()) < strength(e),
    ensures
        is_read(e, ts, i),
    decreases e, 2nat, 0int,
{
    let j = i + bare(e).len();
    if let ExprV::IsNotNull(o) = e {
        let a = text(*o, 11);
        let w = word(Kw::Is);
        let n = word(Kw::Not);
        let z = word(Kw::Null);
        let k = i + a.len();
        lemma_split(ts, i, a, w + n + z);
        lemma_split(ts, k, w + n, z);
        lemma_split(ts, k, w, n);
        lemma_one(ts, k, w[0]);
        lemma_one(ts, k + 1, n[0]);
        lemma_one(ts, k + 2, z[0]);
        lemma_read(*o, 11, ts, i);
        assert(grammar::postfix_rest(ts, k, *o) == Ok::<(ExprV, int), ErrV>((e, j)));
    }
}

proof fn lemma_property(e: ExprV, ts: Seq<TokenV>, i: int)
    requires
        e is Property,
        writable(e),
        stands(ts, i, bare(e)),
        binds(ts, i + bare(e).len()) < strength(e),
    ensures
        is_read(e, ts, i),
    decreases e, 2nat, 0int,
{
    let j = i + bare(e).len();
    if let ExprV::Property(b, p) = e {
        let a = text(*b, 11);
        let d = mark(Sign::Dot);
        let n = id(p);
        let k = i + a.len();
        lemma_split(ts, i, a, d + n);
        lemma_split(ts, k, d, n);
        lemma_one(ts, k, d[0]);
        lemma_one(ts, k + 1, n[0]);
        lemma_read(*b, 11, ts, i);
        assert(grammar::postfix_rest(ts, k, *b) == grammar::postfix_rest(ts, j, e));
    }
}

proof fn lemma_dynamic(e: ExprV, ts: Seq<TokenV>, i: int)
    requires
        e is DynamicProperty,
        writable(e),
        stands(ts, i, bare(e)),
        binds(ts, i + bare(e).len()) < strength(e),
    ensures
        is_read(e, ts, i),
    decreases e, 2nat, 0int,
{
    let j = i + bare(e).len();
    if let ExprV::DynamicProperty { expr, key } = e {
        let a = text(*expr, 11);
        let d = mark(Sign::LBrack);
        let b = text(*key, 0);
        let c = mark(Sign::RBrack);
        let k = i + a.len();
        lemma_split(ts, i, a + d + b, c);
        lemma_split(ts, i, a + d, b);
        lemma_split(ts, i, a, d);
        lemma_one(ts, k, d[0]);
        lemma_one(ts, j - 1, c[0]);
        lemma_read(*expr, 11, ts, i);
        lemma_read(*key, 0, ts, k + 1);
        lemma_subscript(ts, k, *expr, *key, j);
    }
}

proof fn lemma_match_words(op: StringMatchOp, ts: Seq<TokenV>, k: int)
    requires
        stands(ts, k, match_words(op)),
    ensures
        grammar::text_op_at(ts, k) == Some(
            (grammar::TextOp::Match(op), match_words(op).len() as int),
        ),
        binds(ts, k) == 5,
{
    let w = match_words(op);
    match op {
        StringMatchOp::StartsWith => {
            lemma_split(ts, k, word(Kw::Starts), word(Kw::With));
            lemma_one(ts, k, word(Kw::Starts)[0]);
            lemma_one(ts, k + 1, word(Kw::With)[0]);
        },
        StringMatchOp::EndsWith => {
            lemma_split(ts, k, word(Kw::Ends), word(Kw::With));
            lemma_one(ts, k, word(Kw::Ends)[0]);
            lemma_one(ts, k + 1, word(Kw::With)[0]);
        },
        StringMatchOp::Contains => {
            lemma_one(ts, k, word(Kw::Contains)[0]);
        },
    }
}

proof fn lemma_tested(ts: Seq<TokenV>, i: int, l: ExprV, k: int, r: ExprV, j: int, e: ExprV)
    requires
        grammar::level(ts, i, 6) == Ok::<(ExprV, int), ErrV>((l, k)),
        i < k <= ts.len(),
        grammar::text_op_at(ts, k) matches Some((op, w)) && grammar::text_op_expr(op, l, r) == e
            && grammar::level(ts, k + w, 6) == Ok::<(ExprV, int), ErrV>((r, j)),
    ensures
        grammar::level(ts, i, 5) == Ok::<(ExprV, int), ErrV>((e, j)),
{
    assert(grammar::tested(ts, i) == Ok::<(ExprV, int), ErrV>((e, j)));
    assert(grammar::level(ts, i, 5) == grammar::tested(ts, i));
}

proof fn lemma_power(ts: Seq<TokenV>, i: int, l: ExprV, k: int, r: ExprV, j: int)
    requires
        grammar::unary(ts, i) == Ok::<(ExprV, int), ErrV>((l, k)),
        i < k <= ts.len(),
        grammar::sign(ts, k) == Some(Sign::Caret),
        grammar::level(ts, k + 1, 8) == Ok::<(ExprV, int), ErrV>((r, j)),
    ensures
        grammar::level(ts, i, 8) == Ok::<(ExprV, int), ErrV>(
            (ExprV::BinaryOp { left: Box::new(l), op: BinaryOp::Pow, right: Box::new(r) }, j),
        ),
{
    assert(grammar::level(ts, k + 1, 8) == grammar::power(ts, k + 1));
    assert(grammar::power(ts, i) == Ok::<(ExprV, int), ErrV>(
        (ExprV::BinaryOp { left: Box::new(l), op: BinaryOp::Pow, right: Box::new(r) }, j),
    ));
    assert(grammar::level(ts, i, 8) == grammar::power(ts, i));
}

proof fn lemma_subscript(ts: Seq<TokenV>, k: int, b: ExprV, f: ExprV, j: int)
    requires
        0 <= k < ts.len(),
        grammar::sign(ts, k) == Some(Sign::LBrack),
        opens(ts, k + 1),
        grammar::level(ts, k + 1, 0) == Ok::<(ExprV, int), ErrV>((f, j - 1)),
        k + 1 < j - 1 < ts.len(),
        grammar::sign(ts, j - 1) == Some(Sign::RBrack),
    ensures
        grammar::postfix_rest(ts, k, b) == grammar::postfix_rest(
            ts,
            j,
            ExprV::DynamicProperty { expr: Box::new(b), key: Box::new(f) },
        ),
{
    assert(grammar::expr(ts, k + 1) == grammar::level(ts, k + 1, 0));
    assert(grammar::subscript(ts, k + 1, b) == Ok::<(ExprV, int), ErrV>(
        (ExprV::DynamicProperty { expr: Box::new(b), key: Box::new(f) }, j),
    ));
}

// ---------------------------------------------------------------------------
// What stands for itself
// ---------------------------------------------------------------------------

proof fn lemma_atom(e: ExprV, ts: Seq<TokenV>, i: int)
    requires
        writable(e),
        strength(e) == 12,
        stands(ts, i, bare(e)),
        binds(ts, i + bare(e).len()) < 12,
    ensures
        ({
            let j = i + bare(e).len();
            &&& i < j <= ts.len()
            &&& opens_at(ts, i, 12)
            &&& grammar::atom(ts, i) == Ok::<(ExprV, int), ErrV>((e, j))
        }),
    decreases e, 3nat, 0int,
{
    let j = i + bare(e).len();
    match e {
        ExprV::Variable(x) => {
            lemma_one(ts, i, id(x)[0]);
            assert(grammar::word_atom(ts, i, x, Kw::Other) == Ok::<(ExprV, int), ErrV>((e, j)));
        },
        ExprV::Parameter(p) => {
            lemma_split(ts, i, mark(Sign::Dollar), id(p));
            lemma_one(ts, i, mark(Sign::Dollar)[0]);
            lemma_one(ts, i + 1, id(p)[0]);
        },
        ExprV::Literal(LitV::Integer(n)) => {
            lemma_one(ts, i, TokV::Integer(text::nat_text(n as nat)));
            relex::lemma_nat_value(n as nat);
        },
        ExprV::Literal(LitV::Float(s)) => {
            lemma_one(ts, i, TokV::Float(s));
        },
        ExprV::Literal(LitV::Str(s)) => {
            lemma_one(ts, i, TokV::Text(literals::quoted(s)));
            literals::lemma_quoted_read_back(s);
        },
        ExprV::Literal(LitV::Boolean(b)) => {
            let k = if b {
                Kw::True
            } else {
                Kw::False
            };
            lemma_one(ts, i, word(k)[0]);
            let w = ts[i].tok->Word_0;
            assert(grammar::word_atom(ts, i, w, k) == Ok::<(ExprV, int), ErrV>((e, j)));
        },
        ExprV::Literal(LitV::Null) => {
            lemma_one(ts, i, word(Kw::Null)[0]);
            let w = ts[i].tok->Word_0;
            assert(grammar::word_atom(ts, i, w, Kw::Null) == Ok::<(ExprV, int), ErrV>((e, j)));
        },
        ExprV::FunctionCall { name, distinct, args } => {
            lemma_call(name, distinct, args, ts, i);
        },
        ExprV::FilterPredicate { .. } => {
            lemma_filter(e, ts, i);
        },
        _ => {},
    }
}

/// Arguments with commas between them, before a closing bracket.
proof fn lemma_args(es: Seq<ExprV>, k: int, acc: Seq<ExprV>, ts: Seq<TokenV>, i: int)
    requires
        0 <= k < es.len(),
        all_writable(es, k),
        acc == es.take(k),
        stands(ts, i, texts(es, k)),
        grammar::sign(ts, i + texts(es, k).len()) == Some(Sign::RParen),
    ensures
        ({
            let j = i + texts(es, k).len();
            &&& i < j <= ts.len()
            &&& opens(ts, i)
            &&& grammar::exprs(ts, i, acc) == Ok::<(Seq<ExprV>, int), ErrV>((es, j))
        }),
    decreases es, 4nat, es.len() - k,
{
    let t = text(es[k], 0);
    let j = i + texts(es, k).len();
    if k + 1 == es.len() {
        lemma_read(es[k], 0, ts, i);
        assert(grammar::expr(ts, i) == grammar::level(ts, i, 0));
        assert(acc.push(es[k]) =~= es);
    } else {
        let c = mark(Sign::Comma);
        let rest = texts(es, k + 1);
        lemma_split(ts, i, t + c, rest);
        lemma_split(ts, i, t, c);
        lemma_one(ts, i + t.len(), c[0]);
        lemma_read(es[k], 0, ts, i);
        assert(acc.push(es[k]) =~= es.take(k + 1));
        lemma_args(es, k + 1, acc.push(es[k]), ts, i + t.len() + 1);
        assert(grammar::expr(ts, i) == grammar::level(ts, i, 0));
        assert(grammar::exprs(ts, i, acc) == grammar::exprs(
            ts,
            i + t.len() + 1,
            acc.push(es[k]),
        ));
    }
}

proof fn lemma_call(name: Seq<char>, distinct: bool, args: Seq<ExprV>, ts: Seq<TokenV>, i: int)
    requires
        args.len() > 0,
        all_writable(args, 0),
        stands(ts, i, bare(ExprV::FunctionCall { name, distinct, args })),
    ensures
        ({
            let e = ExprV::FunctionCall { name, distinct, args };
            let j = i + bare(e).len();
            &&& i < j <= ts.len()
            &&& opens_at(ts, i, 12)
            &&& grammar::atom(ts, i) == Ok::<(ExprV, int), ErrV>((e, j))
        }),
    decreases args, 5nat, 0int,
{
    let e = ExprV::FunctionCall { name, distinct, args };
    let n = id(name);
    let o = mark(Sign::LParen);
    let d: Seq<TokV> = if distinct {
        word(Kw::Distinct)
    } else {
        seq![]
    };
    let a = texts(args, 0);
    let c = mark(Sign::RParen);
    let j = i + bare(e).len();
    lemma_split(ts, i, n + o + d + a, c);
    lemma_split(ts, i, n + o + d, a);
    lemma_split(ts, i, n + o, d);
    lemma_split(ts, i, n, o);
    lemma_one(ts, i, n[0]);
    lemma_one(ts, i + 1, o[0]);
    lemma_one(ts, j - 1, c[0]);
    if distinct {
        lemma_one(ts, i + 2, d[0]);
    }
    let k = i + 2 + d.len();
    assert(args.take(0) =~= seq![]);
    lemma_args(args, 0, seq![], ts, k);
    assert(grammar::call(ts, i, name) == Ok::<(ExprV, int), ErrV>((e, j)));
    assert(grammar::word_atom(ts, i, name, Kw::Other) == grammar::call(ts, i, name));
}

proof fn lemma_filter(e: ExprV, ts: Seq<TokenV>, i: int)
    requires
        e is FilterPredicate,
        writable(e),
        stands(ts, i, bare(e)),
    ensures
        ({
            let j = i + bare(e).len();
            &&& i < j <= ts.len()
            &&& opens_at(ts, i, 12)
            &&& grammar::atom(ts, i) == Ok::<(ExprV, int), ErrV>((e, j))
        }),
    decreases e, 2nat, 0int,
{
    if let ExprV::FilterPredicate { kind, variable, list, predicate } = e {
        let j = i + bare(e).len();
        let f = word(kind_word(kind));
        let o = mark(Sign::LParen);
        let v = id(variable);
        let n = word(Kw::In);
        let l = text(*list, 0);
        let w = word(Kw::Where);
        let p = text(*predicate, 0);
        let c = mark(Sign::RParen);
        let k = i + 4 + l.len();
        lemma_split(ts, i, f + o + v + n + l + w + p, c);
        lemma_split(ts, i, f + o + v + n + l + w, p);
        lemma_split(ts, i, f + o + v + n + l, w);
        lemma_split(ts, i, f + o + v + n, l);
        lemma_split(ts, i, f + o + v, n);
        lemma_split(ts, i, f + o, v);
        lemma_split(ts, i, f, o);
        lemma_one(ts, i, f[0]);
        lemma_one(ts, i + 1, o[0]);
        lemma_one(ts, i + 2, v[0]);
        lemma_one(ts, i + 3, n[0]);
        lemma_one(ts, k, w[0]);
        lemma_one(ts, j - 1, c[0]);
        lemma_read(*list, 0, ts, i + 4);
        lemma_read(*predicate, 0, ts, k + 1);
        assert(grammar::expr(ts, i + 4) == grammar::level(ts, i + 4, 0));
        assert(grammar::expr(ts, k + 1) == grammar::level(ts, k + 1, 0));
        let u = ts[i].tok->Word_0;
        assert(grammar::filter_kind(kind_word(kind)) == Some(kind));
        assert(grammar::variable(ts, i + 2) == Some(variable));
        assert(grammar::goes_through(ts, i));
        assert(grammar::filter(ts, i, kind) == Ok::<(ExprV, int), ErrV>((e, j)));
        assert(grammar::word_atom(ts, i, u, kind_word(kind)) == grammar::filter(ts, i, kind));
    }
}

} // verus!
