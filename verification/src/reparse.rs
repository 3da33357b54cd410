//! The statement that the query of an exported graph is.
use crate::ast::{
    ChainV, ClauseV, Direction, ExprV, KeyV, LitV, NodePatV, PartV, PatternV, RelPatV, StmtV,
    UnaryOp,
};
use crate::error::ErrV;
use crate::exported::{self, PieceV};
use crate::grammar;
use crate::graph;
use crate::lexer::{Kw, Sign, TokV, TokenV};
use crate::literals;
use crate::outside::AnswersV;
use crate::parser;
use crate::relex;
use crate::text;
use crate::value::{EdgeV, NodeV, PropV, PropsV};
use vstd::prelude::*;

verus! {

// ---------------------------------------------------------------------------
// Reading values
// ---------------------------------------------------------------------------

/// The given tokens stand at a place.
pub open spec fn at(ts: Seq<TokenV>, i: int, ks: Seq<TokV>) -> bool {
    relex::stands(relex::kinds(ts), i, ks)
}

proof fn lemma_at(ts: Seq<TokenV>, i: int, ks: Seq<TokV>, k: int)
    requires
        at(ts, i, ks),
        0 <= k < ks.len(),
    ensures
        0 <= i + k < ts.len(),
        ts[i + k].tok == ks[k],
{
    relex::lemma_stands_at(relex::kinds(ts), i, ks, k);
}

proof fn lemma_at_parts(ts: Seq<TokenV>, i: int, a: Seq<TokV>, b: Seq<TokV>)
    requires
        at(ts, i, a + b),
    ensures
        at(ts, i, a),
        at(ts, i + a.len(), b),
{
    relex::lemma_stands_parts(relex::kinds(ts), i, a, b);
}

proof fn lemma_at_range(ts: Seq<TokenV>, i: int, ks: Seq<TokV>)
    requires
        at(ts, i, ks),
    ensures
        0 <= i,
        i + ks.len() <= ts.len(),
{
    relex::lemma_stands_range(relex::kinds(ts), i, ks);
}

/// An entry of a map ends at a place.
pub open spec fn entry_ends(ts: Seq<TokenV>, k: int) -> bool {
    grammar::sign(ts, k) == Some(Sign::Comma) || grammar::sign(ts, k) == Some(Sign::RBrace)
}

/// An atom at the end of an entry is all that is asked for.
proof fn lemma_postfix(ts: Seq<TokenV>, i: int, e: ExprV, k: int)
    requires
        grammar::atom(ts, i) == Ok::<(ExprV, int), ErrV>((e, k)),
        i < k <= ts.len(),
        entry_ends(ts, k),
    ensures
        grammar::postfix(ts, i) == Ok::<(ExprV, int), ErrV>((e, k)),
{
    assert(grammar::kw(ts, k) == Kw::Other);
    assert(grammar::postfix_rest(ts, k, e) == Ok::<(ExprV, int), ErrV>((e, k)));
}

/// An operand at the end of an entry is the whole expression.
proof fn lemma_expr(ts: Seq<TokenV>, i: int, e: ExprV, k: int)
    requires
        grammar::unary(ts, i) == Ok::<(ExprV, int), ErrV>((e, k)),
        i < k <= ts.len(),
        entry_ends(ts, k),
        grammar::kw(ts, i) != Kw::Not,
    ensures
        grammar::expr(ts, i) == Ok::<(ExprV, int), ErrV>((e, k)),
{
    let found = Ok::<(ExprV, int), ErrV>((e, k));
    assert(grammar::kw(ts, k) == Kw::Other);
    assert(grammar::power(ts, i) == found);
    assert(grammar::level(ts, i, 8) == found);
    assert(grammar::infix_at(ts, k, 7) is None);
    assert(grammar::infix_rest(ts, k, 7, e) == found);
    assert(grammar::level(ts, i, 7) == found);
    assert(grammar::infix_rest(ts, k, 6, e) == found);
    assert(grammar::level(ts, i, 6) == found);
    assert(grammar::tested(ts, i) == found);
    assert(grammar::level(ts, i, 5) == found);
    assert(grammar::infix_rest(ts, k, 4, e) == found);
    assert(grammar::level(ts, i, 4) == found);
    assert(grammar::level(ts, i, 3) == found);
    assert(grammar::infix_rest(ts, k, 2, e) == found);
    assert(grammar::level(ts, i, 2) == found);
    assert(grammar::infix_rest(ts, k, 1, e) == found);
    assert(grammar::level(ts, i, 1) == found);
    assert(grammar::infix_rest(ts, k, 0, e) == found);
    assert(grammar::level(ts, i, 0) == found);
}

/// An expression stands between two places.
#[verifier::opaque]
pub open spec fn is_expr(ts: Seq<TokenV>, i: int, e: ExprV, k: int) -> bool {
    grammar::expr(ts, i) == Ok::<(ExprV, int), ErrV>((e, k)) && i < k <= ts.len()
}

/// A number with a minus in front of it.
pub open spec fn negative(l: LitV) -> ExprV {
    ExprV::UnaryOp { op: UnaryOp::Neg, operand: Box::new(ExprV::Literal(l)) }
}

/// The expression that the text of a property is.
pub open spec fn value_expr(ans: AnswersV, v: PropV) -> ExprV {
    match v {
        PropV::Str(s) => ExprV::Literal(LitV::Str(s)),
        PropV::Int(i) => if i < 0 {
            negative(LitV::Integer((-i) as i64))
        } else {
            ExprV::Literal(LitV::Integer(i))
        },
        PropV::Float(b) => {
            let t = exported::value_text(ans, v);
            if t.len() > 0 && t[0] == '-' {
                negative(LitV::Float(t.skip(1)))
            } else {
                ExprV::Literal(LitV::Float(t))
            }
        },
        PropV::Bool(b) => ExprV::Literal(LitV::Boolean(b)),
    }
}

/// One token is a literal.
proof fn lemma_literal(ts: Seq<TokenV>, i: int, t: TokV, l: LitV)
    requires
        at(ts, i, seq![t]),
        entry_ends(ts, i + 1),
        match (t, l) {
            (TokV::Integer(s), LitV::Integer(n)) => literals::integer_value(s) == Ok::<int, ErrV>(
                n as int,
            ),
            (TokV::Float(s), LitV::Float(x)) => s == x,
            (TokV::Text(s), LitV::Str(c)) => literals::string_content(s) == Ok::<Seq<char>, ErrV>(
                c,
            ),
            (TokV::Word(_, k), LitV::Boolean(true)) => k == Kw::True,
            (TokV::Word(_, k), LitV::Boolean(false)) => k == Kw::False,
            _ => false,
        },
    ensures
        grammar::postfix(ts, i) == Ok::<(ExprV, int), ErrV>((ExprV::Literal(l), i + 1)),
        is_expr(ts, i, ExprV::Literal(l), i + 1),
{
    reveal(is_expr);
    lemma_at(ts, i, seq![t], 0);
    if let TokV::Word(w, k) = t {
        assert(grammar::word_atom(ts, i, w, k) == Ok::<(ExprV, int), ErrV>(
            (ExprV::Literal(l), i + 1),
        ));
    }
    assert(grammar::atom(ts, i) == Ok::<(ExprV, int), ErrV>((ExprV::Literal(l), i + 1)));
    lemma_postfix(ts, i, ExprV::Literal(l), i + 1);
    assert(grammar::unary(ts, i) == Ok::<(ExprV, int), ErrV>((ExprV::Literal(l), i + 1)));
    lemma_expr(ts, i, ExprV::Literal(l), i + 1);
}

/// A minus and one token are a negative literal.
proof fn lemma_negative(ts: Seq<TokenV>, i: int, t: TokV, l: LitV)
    requires
        at(ts, i, seq![TokV::Sign(Sign::Minus), t]),
        entry_ends(ts, i + 2),
        match (t, l) {
            (TokV::Integer(s), LitV::Integer(n)) => literals::integer_value(s) == Ok::<int, ErrV>(
                n as int,
            ),
            (TokV::Float(s), LitV::Float(x)) => s == x,
            _ => false,
        },
    ensures
        is_expr(ts, i, negative(l), i + 2),
{
    reveal(is_expr);
    let minus = seq![TokV::Sign(Sign::Minus)];
    assert(seq![TokV::Sign(Sign::Minus), t] =~= minus + seq![t]);
    lemma_at_parts(ts, i, minus, seq![t]);
    lemma_at(ts, i, minus, 0);
    lemma_literal(ts, i + 1, t, l);
    assert(grammar::unary(ts, i) == Ok::<(ExprV, int), ErrV>((negative(l), i + 2)));
    lemma_expr(ts, i, negative(l), i + 2);
}

/// The text of a property is read as its expression.
proof fn lemma_value(ts: Seq<TokenV>, i: int, ans: AnswersV, v: PropV)
    requires
        exported::writable(ans, v),
        at(ts, i, exported::value_tokens(ans, v)),
        entry_ends(ts, i + exported::value_tokens(ans, v).len()),
    ensures
        is_expr(ts, i, value_expr(ans, v), i + exported::value_tokens(ans, v).len()),
{
    match v {
        PropV::Str(s) => {
            literals::lemma_quoted_read_back(s);
            lemma_literal(ts, i, TokV::Text(literals::quoted(s)), LitV::Str(s));
        },
        PropV::Int(n) => {
            if n < 0 {
                relex::lemma_nat_value((-n) as nat);
                lemma_negative(
                    ts,
                    i,
                    TokV::Integer(text::nat_text((-n) as nat)),
                    LitV::Integer((-n) as i64),
                );
            } else {
                relex::lemma_nat_value(n as nat);
                lemma_literal(ts, i, TokV::Integer(text::nat_text(n as nat)), LitV::Integer(n));
            }
        },
        PropV::Float(b) => {
            let t = exported::value_text(ans, v);
            if t.len() > 0 && t[0] == '-' {
                lemma_negative(ts, i, TokV::Float(t.skip(1)), LitV::Float(t.skip(1)));
            } else {
                lemma_literal(ts, i, TokV::Float(t), LitV::Float(t));
            }
        },
        PropV::Bool(b) => {
            if b {
                lemma_literal(ts, i, TokV::Word("true"@, Kw::True), LitV::Boolean(true));
            } else {
                lemma_literal(ts, i, TokV::Word("false"@, Kw::False), LitV::Boolean(false));
            }
        },
    }
}

// ---------------------------------------------------------------------------
// Reading properties and labels
// ---------------------------------------------------------------------------

/// The entries that properties are read as.
pub open spec fn entry_exprs(ans: AnswersV, ps: PropsV) -> Seq<(KeyV, ExprV)> {
    Seq::new(ps.len(), |i: int| (KeyV::Identifier(ps[i].0), value_expr(ans, ps[i].1)))
}

/// One entry, and what follows it.
proof fn lemma_entry(
    ts: Seq<TokenV>,
    i: int,
    ans: AnswersV,
    p: (Seq<char>, PropV),
    acc: Seq<(KeyV, ExprV)>,
)
    requires
        exported::writable(ans, p.1),
        at(ts, i, exported::entry_tokens(ans, p)),
        entry_ends(ts, i + exported::entry_tokens(ans, p).len()),
    ensures
        ({
            let m = i + exported::entry_tokens(ans, p).len();
            let next = acc.push((KeyV::Identifier(p.0), value_expr(ans, p.1)));
            grammar::entries(ts, i, acc) == (if grammar::sign(ts, m) == Some(Sign::Comma) {
                grammar::entries(ts, m + 1, next)
            } else {
                Ok((next, m + 1))
            })
        }),
{
    let head = seq![relex::word_token(p.0), TokV::Sign(Sign::Colon)];
    lemma_at_parts(ts, i, head, exported::value_tokens(ans, p.1));
    lemma_at(ts, i, head, 0);
    lemma_at(ts, i, head, 1);
    lemma_value(ts, i + 2, ans, p.1);
    reveal(is_expr);
    assert(grammar::map_key(ts, i) == Ok::<(KeyV, int), ErrV>((KeyV::Identifier(p.0), i + 1)));
}

proof fn lemma_entries(
    ts: Seq<TokenV>,
    i: int,
    ans: AnswersV,
    ps: PropsV,
    acc: Seq<(KeyV, ExprV)>,
)
    requires
        ps.len() > 0,
        forall|j: int| 0 <= j < ps.len() ==> exported::writable(ans, (#[trigger] ps[j]).1),
        at(
            ts,
            i,
            relex::strung(exported::entries_tokens(ans, ps), seq![TokV::Sign(Sign::Comma)])
                + seq![TokV::Sign(Sign::RBrace)],
        ),
    ensures
        grammar::entries(ts, i, acc) == Ok::<(Seq<(KeyV, ExprV)>, int), ErrV>(
            (
                acc + entry_exprs(ans, ps),
                i + relex::strung(
                    exported::entries_tokens(ans, ps),
                    seq![TokV::Sign(Sign::Comma)],
                ).len() + 1,
            ),
        ),
    decreases ps.len(),
{
    let comma = seq![TokV::Sign(Sign::Comma)];
    let close = seq![TokV::Sign(Sign::RBrace)];
    let ks = exported::entries_tokens(ans, ps);
    let head = exported::entry_tokens(ans, ps[0]);
    let m = i + head.len();
    let next = acc.push((KeyV::Identifier(ps[0].0), value_expr(ans, ps[0].1)));
    assert(ks[0] == head);
    assert(exported::writable(ans, ps[0].1));
    if ps.len() == 1 {
        lemma_at_parts(ts, i, head, close);
        lemma_at(ts, m, close, 0);
        lemma_entry(ts, i, ans, ps[0], acc);
        assert(next =~= acc + entry_exprs(ans, ps));
    } else {
        let rest = ps.skip(1);
        let tail = relex::strung(exported::entries_tokens(ans, rest), comma) + close;
        assert(ks.skip(1) =~= exported::entries_tokens(ans, rest));
        assert(relex::strung(ks, comma) + close =~= head + (comma + tail));
        lemma_at_parts(ts, i, head, comma + tail);
        lemma_at_parts(ts, m, comma, tail);
        lemma_at(ts, m, comma, 0);
        lemma_entry(ts, i, ans, ps[0], acc);
        assert forall|j: int| 0 <= j < rest.len() implies exported::writable(
            ans,
            (#[trigger] rest[j]).1,
        ) by {
            assert(rest[j] == ps[j + 1]);
        }
        lemma_entries(ts, m + 1, ans, rest, next);
        assert(next + entry_exprs(ans, rest) =~= acc + entry_exprs(ans, ps));
    }
}

/// The map that properties are read as.
pub open spec fn props_dict(ans: AnswersV, ps: PropsV) -> Option<Seq<(KeyV, ExprV)>> {
    if ps.len() == 0 {
        None
    } else {
        Some(entry_exprs(ans, ps))
    }
}

/// Properties stand between two places, or nothing does.
#[verifier::opaque]
pub open spec fn is_dict(ts: Seq<TokenV>, i: int, d: Option<Seq<(KeyV, ExprV)>>, k: int) -> bool {
    grammar::maybe_dict(ts, i) == Ok::<(Option<Seq<(KeyV, ExprV)>>, int), ErrV>((d, k))
}

proof fn lemma_dict(ts: Seq<TokenV>, i: int, ans: AnswersV, ps: PropsV)
    requires
        forall|j: int| 0 <= j < ps.len() ==> exported::writable(ans, (#[trigger] ps[j]).1),
        at(ts, i, exported::props_tokens(ans, ps)),
        grammar::sign(ts, i + exported::props_tokens(ans, ps).len()) != Some(Sign::LBrace),
    ensures
        is_dict(ts, i, props_dict(ans, ps), i + exported::props_tokens(ans, ps).len()),
{
    reveal(is_dict);
    if ps.len() > 0 {
        let comma = seq![TokV::Sign(Sign::Comma)];
        let open = seq![TokV::Sign(Sign::LBrace)];
        let close = seq![TokV::Sign(Sign::RBrace)];
        let ks = exported::entries_tokens(ans, ps);
        let body = relex::strung(ks, comma);
        lemma_at_range(ts, i, exported::props_tokens(ans, ps));
        lemma_at_parts(ts, i, open, body + close);
        lemma_at(ts, i, open, 0);
        lemma_entries(ts, i + 1, ans, ps, seq![]);
        assert(Seq::<(KeyV, ExprV)>::empty() + entry_exprs(ans, ps) =~= entry_exprs(ans, ps));
        assert(grammar::sign(ts, i + 1) != Some(Sign::RBrace)) by {
            assert(ks[0] == exported::entry_tokens(ans, ps[0]));
            assert((body + close)[0] == relex::word_token(ps[0].0));
            lemma_at(ts, i + 1, body + close, 0);
        }
        assert(grammar::dict(ts, i) == grammar::entries(ts, i + 1, seq![]));
    }
}

proof fn lemma_labels(ts: Seq<TokenV>, i: int, ls: Seq<Seq<char>>, acc: Seq<Seq<char>>)
    requires
        at(ts, i, exported::labels_tokens(ls)),
        grammar::sign(ts, i + exported::labels_tokens(ls).len()) != Some(Sign::Colon),
    ensures
        grammar::labels(ts, i, acc) == (acc + ls, i + exported::labels_tokens(ls).len()),
    decreases ls.len(),
{
    let colon = seq![TokV::Sign(Sign::Colon)];
    if ls.len() == 0 {
        assert(acc + ls =~= acc);
    } else {
        let rest = ls.skip(1);
        let w = seq![relex::word_token(ls[0])];
        let ks = exported::words(ls);
        assert(ks[0] == w);
        assert(ks.skip(1) =~= exported::words(rest));
        assert(exported::labels_tokens(ls) =~= colon + (w + exported::labels_tokens(rest)));
        lemma_at_parts(ts, i, colon, w + exported::labels_tokens(rest));
        lemma_at_parts(ts, i + 1, w, exported::labels_tokens(rest));
        lemma_at(ts, i, colon, 0);
        lemma_at(ts, i + 1, w, 0);
        lemma_labels(ts, i + 2, rest, acc.push(ls[0]));
        assert(acc.push(ls[0]) + rest =~= acc + ls);
    }
}

// ---------------------------------------------------------------------------
// Reading nodes and relationships
// ---------------------------------------------------------------------------

/// The pattern of a node stands between two places.
#[verifier::opaque]
pub open spec fn is_node(ts: Seq<TokenV>, i: int, np: NodePatV, k: int) -> bool {
    grammar::node(ts, i) == Ok::<(NodePatV, int), ErrV>((np, k)) && i < k <= ts.len()
}

/// The pattern of a relationship stands between two places.
#[verifier::opaque]
pub open spec fn is_rel(ts: Seq<TokenV>, i: int, r: RelPatV, k: int) -> bool {
    grammar::rel(ts, i) == Ok::<(RelPatV, int), ErrV>((r, k)) && i < k <= ts.len()
        && grammar::rel_begins(ts, i)
}

/// A pattern with its variable stands between two places.
#[verifier::opaque]
pub open spec fn is_part(ts: Seq<TokenV>, i: int, p: PartV, k: int) -> bool {
    parser::part(ts, i) == Ok::<(PartV, int), ErrV>((p, k)) && i < k <= ts.len()
}

/// The pattern that a node is read as.
pub open spec fn node_pattern(ans: AnswersV, n: NodeV) -> NodePatV {
    NodePatV {
        variable: Some(graph::exported_variable(n.id)),
        labels: n.labels,
        properties: props_dict(ans, exported::pairs(n.properties)),
    }
}

/// The pattern of a node that is only named.
pub open spec fn named_pattern(id: u64) -> NodePatV {
    NodePatV { variable: Some(graph::exported_variable(id)), labels: seq![], properties: None }
}

pub proof fn lemma_writable_pairs(ans: AnswersV, props: PropsV)
    requires
        exported::writable_props(ans, props),
    ensures
        forall|j: int|
            0 <= j < exported::pairs(props).len() ==> exported::writable(
                ans,
                (#[trigger] exported::pairs(props)[j]).1,
            ),
{
    exported::lemma_pairs(props);
    let ps = exported::pairs(props);
    assert forall|j: int| 0 <= j < ps.len() implies exported::writable(
        ans,
        (#[trigger] ps[j]).1,
    ) by {
        assert(exists|m: int| 0 <= m < props.len() && props[m] == ps[j]);
    }
}

proof fn lemma_node_rule(
    ts: Seq<TokenV>,
    i: int,
    v: Option<Seq<char>>,
    ls: Seq<Seq<char>>,
    d: Option<Seq<(KeyV, ExprV)>>,
    j: int,
    k: int,
    m: int,
)
    requires
        grammar::sign(ts, i) == Some(Sign::LParen),
        grammar::maybe_variable(ts, i + 1) == (v, j),
        grammar::labels(ts, j, seq![]) == (ls, k),
        is_dict(ts, k, d, m),
        grammar::sign(ts, m) == Some(Sign::RParen),
        i < m,
    ensures
        is_node(ts, i, NodePatV { variable: v, labels: ls, properties: d }, m + 1),
{
    reveal(is_node);
    reveal(is_dict);
}

/// A node with its variable, labels and properties.
proof fn lemma_pattern(ts: Seq<TokenV>, i: int, ans: AnswersV, id: u64, ls: Seq<Seq<char>>, ps: PropsV)
    requires
        forall|j: int| 0 <= j < ps.len() ==> exported::writable(ans, (#[trigger] ps[j]).1),
        at(
            ts,
            i,
            seq![TokV::Sign(Sign::LParen), exported::variable_token(id)] + (
            exported::labels_tokens(ls) + (exported::props_tokens(ans, ps) + seq![
                TokV::Sign(Sign::RParen),
            ])),
        ),
    ensures
        ({
            let k = i + 3 + exported::labels_tokens(ls).len() + exported::props_tokens(
                ans,
                ps,
            ).len();
            is_node(
                ts,
                i,
                NodePatV {
                    variable: Some(graph::exported_variable(id)),
                    labels: ls,
                    properties: props_dict(ans, ps),
                },
                k,
            )
        }),
{
    let head = seq![TokV::Sign(Sign::LParen), exported::variable_token(id)];
    let lt = exported::labels_tokens(ls);
    let pt = exported::props_tokens(ans, ps);
    let close = seq![TokV::Sign(Sign::RParen)];
    let k = i + 2 + lt.len();
    let m = k + pt.len();
    assert(grammar::sign(ts, i) == Some(Sign::LParen) && grammar::maybe_variable(ts, i + 1) == (
        Some(graph::exported_variable(id)),
        i + 2,
    ) && at(ts, i + 2, lt) && at(ts, k, pt) && at(ts, k, pt + close) && at(ts, m, close)) by {
        lemma_at_parts(ts, i, head, lt + (pt + close));
        lemma_at_parts(ts, i + 2, lt, pt + close);
        lemma_at_parts(ts, k, pt, close);
        lemma_at(ts, i, head, 0);
        lemma_at(ts, i, head, 1);
    }
    lemma_at(ts, m, close, 0);
    assert(grammar::sign(ts, k) != Some(Sign::Colon)) by {
        lemma_at(ts, k, pt + close, 0);
        if pt.len() > 0 {
            assert((pt + close)[0] == pt[0]);
            assert(pt[0] == TokV::Sign(Sign::LBrace));
        }
    }
    assert(grammar::labels(ts, i + 2, seq![]) == (ls, k)) by {
        lemma_labels(ts, i + 2, ls, seq![]);
        assert(Seq::<Seq<char>>::empty() + ls =~= ls);
    }
    lemma_dict(ts, k, ans, ps);
    lemma_node_rule(
        ts,
        i,
        Some(graph::exported_variable(id)),
        ls,
        props_dict(ans, ps),
        i + 2,
        k,
        m,
    );
}

proof fn lemma_named(ts: Seq<TokenV>, i: int, id: u64)
    requires
        at(ts, i, exported::named_tokens(id)),
    ensures
        is_node(ts, i, named_pattern(id), i + 3),
{
    let ans: AnswersV = arbitrary();
    let ps: PropsV = seq![];
    let ls = Seq::<Seq<char>>::empty();
    assert(exported::named_tokens(id) =~= seq![
        TokV::Sign(Sign::LParen),
        exported::variable_token(id),
    ] + (exported::labels_tokens(ls) + (exported::props_tokens(ans, ps) + seq![
        TokV::Sign(Sign::RParen),
    ])));
    lemma_pattern(ts, i, ans, id, ls, ps);
}

/// The pattern that a relationship is read as.
pub open spec fn edge_pattern(ans: AnswersV, e: EdgeV) -> RelPatV {
    RelPatV {
        variable: None,
        rel_types: seq![e.label],
        direction: Direction::Outgoing,
        range: None,
        properties: props_dict(ans, exported::pairs(e.properties)),
    }
}

#[verifier::spinoff_prover]
proof fn lemma_detail_rule(
    ts: Seq<TokenV>,
    i: int,
    label: Seq<char>,
    d: Option<Seq<(KeyV, ExprV)>>,
    q: int,
)
    requires
        0 <= i,
        grammar::sign(ts, i + 2) == Some(Sign::Colon),
        grammar::name(ts, i + 3) == Some(label),
        grammar::sign(ts, i + 4) == Some(Sign::LBrace) || grammar::sign(ts, i + 4) == Some(
            Sign::RBrack,
        ),
        is_dict(ts, i + 4, d, q),
        i + 4 <= q,
        grammar::sign(ts, q) == Some(Sign::RBrack),
    ensures
        grammar::detail(ts, i + 2, Direction::Undirected) == Ok::<(RelPatV, int), ErrV>(
            (
                RelPatV {
                    variable: None,
                    rel_types: seq![label],
                    direction: Direction::Undirected,
                    range: None,
                    properties: d,
                },
                q + 1,
            ),
        ),
{
    reveal(is_dict);
    assert(grammar::maybe_variable(ts, i + 2) == (None::<Seq<char>>, i + 2));
    assert(grammar::more_types(ts, i + 4, seq![label]) == (seq![label], i + 4));
    assert(grammar::types(ts, i + 2) == (seq![label], i + 4));
}

#[verifier::spinoff_prover]
proof fn lemma_rel_rule(
    ts: Seq<TokenV>,
    i: int,
    label: Seq<char>,
    d: Option<Seq<(KeyV, ExprV)>>,
    q: int,
)
    requires
        0 <= i,
        grammar::sign(ts, i) == Some(Sign::Minus),
        grammar::sign(ts, i + 1) == Some(Sign::LBrack),
        grammar::sign(ts, i + 2) == Some(Sign::Colon),
        grammar::name(ts, i + 3) == Some(label),
        grammar::sign(ts, i + 4) == Some(Sign::LBrace) || grammar::sign(ts, i + 4) == Some(
            Sign::RBrack,
        ),
        is_dict(ts, i + 4, d, q),
        i + 4 <= q,
        grammar::sign(ts, q) == Some(Sign::RBrack),
        grammar::sign(ts, q + 1) == Some(Sign::Minus),
        grammar::sign(ts, q + 2) == Some(Sign::Gt),
    ensures
        is_rel(
            ts,
            i,
            RelPatV {
                variable: None,
                rel_types: seq![label],
                direction: Direction::Outgoing,
                range: None,
                properties: d,
            },
            q + 3,
        ),
{
    reveal(is_rel);
    lemma_detail_rule(ts, i, label, d, q);
}

proof fn lemma_rel(ts: Seq<TokenV>, i: int, ans: AnswersV, e: EdgeV)
    requires
        exported::writable_edge(ans, e),
        at(
            ts,
            i,
            seq![
                TokV::Sign(Sign::Minus),
                TokV::Sign(Sign::LBrack),
                TokV::Sign(Sign::Colon),
                relex::word_token(e.label),
            ] + (exported::props_tokens(ans, exported::pairs(e.properties)) + seq![
                TokV::Sign(Sign::RBrack),
                TokV::Sign(Sign::Minus),
                TokV::Sign(Sign::Gt),
            ]),
        ),
    ensures
        ({
            let k = i + 7 + exported::props_tokens(ans, exported::pairs(e.properties)).len();
            is_rel(ts, i, edge_pattern(ans, e), k)
        }),
{
    let head = seq![
        TokV::Sign(Sign::Minus),
        TokV::Sign(Sign::LBrack),
        TokV::Sign(Sign::Colon),
        relex::word_token(e.label),
    ];
    let tail = seq![TokV::Sign(Sign::RBrack), TokV::Sign(Sign::Minus), TokV::Sign(Sign::Gt)];
    let ps = exported::pairs(e.properties);
    let pt = exported::props_tokens(ans, ps);
    lemma_writable_pairs(ans, e.properties);
    lemma_at_range(ts, i, head + (pt + tail));
    lemma_at_parts(ts, i, head, pt + tail);
    lemma_at_parts(ts, i + 4, pt, tail);
    lemma_at(ts, i, head, 0);
    lemma_at(ts, i, head, 1);
    lemma_at(ts, i, head, 2);
    lemma_at(ts, i, head, 3);
    let q = i + 4 + pt.len();
    lemma_at(ts, q, tail, 0);
    lemma_at(ts, q, tail, 1);
    lemma_at(ts, q, tail, 2);
    lemma_at(ts, i + 4, pt + tail, 0);
    assert(pt.len() > 0 ==> pt[0] == TokV::Sign(Sign::LBrace));
    assert(grammar::sign(ts, i + 4) == Some(Sign::LBrace) || grammar::sign(ts, i + 4) == Some(
        Sign::RBrack,
    ));
    lemma_dict(ts, i + 4, ans, ps);
    lemma_rel_rule(ts, i, e.label, props_dict(ans, ps), q);
}

/// The pattern that a part is read as.
pub open spec fn piece_pattern(ans: AnswersV, x: PieceV) -> PatternV {
    match x {
        PieceV::Node(n) => PatternV::Node(node_pattern(ans, n)),
        PieceV::Edge(e) => PatternV::Chain {
            start: named_pattern(e.src),
            elements: seq![
                ChainV { relationship: edge_pattern(ans, e), node: named_pattern(e.dst) },
            ],
        },
    }
}

pub open spec fn piece_part(ans: AnswersV, x: PieceV) -> PartV {
    PartV {
        variable: parser::start_variable(piece_pattern(ans, x)),
        element: piece_pattern(ans, x),
    }
}

proof fn lemma_single_rule(ts: Seq<TokenV>, i: int, np: NodePatV, k: int)
    requires
        grammar::sign(ts, i) == Some(Sign::LParen),
        is_node(ts, i, np, k),
        !grammar::rel_begins(ts, k),
    ensures
        is_part(ts, i, PartV { variable: np.variable, element: PatternV::Node(np) }, k),
{
    reveal(is_node);
    reveal(is_part);
    let none = Seq::<ChainV>::empty();
    assert(grammar::chain(ts, k, none) == Ok::<(Seq<ChainV>, int), ErrV>((none, k)));
    assert(grammar::pattern(ts, i) == Ok::<(PatternV, int), ErrV>((PatternV::Node(np), k)));
}

proof fn lemma_path_rule(
    ts: Seq<TokenV>,
    i: int,
    start: NodePatV,
    r: RelPatV,
    end: NodePatV,
    j: int,
    k: int,
    m: int,
)
    requires
        grammar::sign(ts, i) == Some(Sign::LParen),
        is_node(ts, i, start, j),
        is_rel(ts, j, r, k),
        is_node(ts, k, end, m),
        !grammar::rel_begins(ts, m),
    ensures
        is_part(
            ts,
            i,
            PartV {
                variable: start.variable,
                element: PatternV::Chain {
                    start,
                    elements: seq![ChainV { relationship: r, node: end }],
                },
            },
            m,
        ),
{
    reveal(is_node);
    reveal(is_rel);
    reveal(is_part);
    let none = Seq::<ChainV>::empty();
    let step = ChainV { relationship: r, node: end };
    assert(none.push(step) =~= seq![step]);
    assert(grammar::chain(ts, m, seq![step]) == Ok::<(Seq<ChainV>, int), ErrV>((seq![step], m)));
    assert(grammar::chain(ts, j, none) == Ok::<(Seq<ChainV>, int), ErrV>((seq![step], m)));
    assert(grammar::pattern(ts, i) == Ok::<(PatternV, int), ErrV>(
        (PatternV::Chain { start, elements: seq![step] }, m),
    ));
}

proof fn lemma_edge(ts: Seq<TokenV>, i: int, ans: AnswersV, e: EdgeV)
    requires
        exported::writable_edge(ans, e),
        at(ts, i, exported::edge_tokens(ans, e)),
        !grammar::rel_begins(ts, i + exported::edge_tokens(ans, e).len()),
        grammar::sign(ts, i) == Some(Sign::LParen),
    ensures
        is_part(
            ts,
            i,
            piece_part(ans, PieceV::Edge(e)),
            i + exported::edge_tokens(ans, e).len(),
        ),
{
    let k = i + exported::edge_tokens(ans, e).len();
    let pt = exported::props_tokens(ans, exported::pairs(e.properties));
    let head = seq![
        TokV::Sign(Sign::Minus),
        TokV::Sign(Sign::LBrack),
        TokV::Sign(Sign::Colon),
        relex::word_token(e.label),
    ];
    let tail = seq![TokV::Sign(Sign::RBrack), TokV::Sign(Sign::Minus), TokV::Sign(Sign::Gt)];
    let mid = head + (pt + tail);
    let a = exported::named_tokens(e.src);
    let b = exported::named_tokens(e.dst);
    assert(exported::edge_tokens(ans, e) =~= a + (mid + b));
    assert(at(ts, i, a) && at(ts, i + 3, mid) && at(ts, i + 3 + mid.len(), b)) by {
        lemma_at_parts(ts, i, a, mid + b);
        lemma_at_parts(ts, i + 3, mid, b);
    }
    lemma_named(ts, i, e.src);
    lemma_rel(ts, i + 3, ans, e);
    lemma_named(ts, i + 3 + mid.len(), e.dst);
    lemma_path_rule(
        ts,
        i,
        named_pattern(e.src),
        edge_pattern(ans, e),
        named_pattern(e.dst),
        i + 3,
        i + 3 + mid.len(),
        k,
    );
}

proof fn lemma_piece(ts: Seq<TokenV>, i: int, ans: AnswersV, x: PieceV)
    requires
        exported::writable_piece(ans, x),
        at(ts, i, exported::piece_tokens(ans, x)),
        !grammar::rel_begins(ts, i + exported::piece_tokens(ans, x).len()),
    ensures
        is_part(ts, i, piece_part(ans, x), i + exported::piece_tokens(ans, x).len()),
{
    let k = i + exported::piece_tokens(ans, x).len();
    assert(grammar::sign(ts, i) == Some(Sign::LParen)) by {
        lemma_at(ts, i, exported::piece_tokens(ans, x), 0);
    }
    match x {
        PieceV::Node(n) => {
            lemma_writable_pairs(ans, n.properties);
            lemma_pattern(ts, i, ans, n.id, n.labels, exported::pairs(n.properties));
            lemma_single_rule(ts, i, node_pattern(ans, n), k);
        },
        PieceV::Edge(e) => {
            lemma_edge(ts, i, ans, e);
        },
    }
}

// ---------------------------------------------------------------------------
// Reading the query
// ---------------------------------------------------------------------------

pub open spec fn piece_parts(ans: AnswersV, xs: Seq<PieceV>) -> Seq<PartV> {
    Seq::new(xs.len(), |i: int| piece_part(ans, xs[i]))
}

/// Patterns stand between two places, behind those that are there already.
#[verifier::opaque]
pub open spec fn are_parts(ts: Seq<TokenV>, i: int, acc: Seq<PartV>, all: Seq<PartV>, k: int) -> bool {
    parser::parts(ts, i, acc) == Ok::<(Seq<PartV>, int), ErrV>((all, k))
}

proof fn lemma_parts_rule(ts: Seq<TokenV>, i: int, p: PartV, k: int, acc: Seq<PartV>)
    requires
        is_part(ts, i, p, k),
    ensures
        grammar::sign(ts, k) != Some(Sign::Comma) ==> are_parts(ts, i, acc, acc.push(p), k),
        grammar::sign(ts, k) == Some(Sign::Comma) ==> forall|all: Seq<PartV>, m: int| #[trigger]
            are_parts(ts, k + 1, acc.push(p), all, m) ==> are_parts(ts, i, acc, all, m),
{
    reveal(is_part);
    reveal(are_parts);
}

/// The parts up to the end of the query.
proof fn lemma_pieces(ts: Seq<TokenV>, i: int, ans: AnswersV, xs: Seq<PieceV>, acc: Seq<PartV>)
    requires
        xs.len() > 0,
        forall|j: int| 0 <= j < xs.len() ==> exported::writable_piece(ans, #[trigger] xs[j]),
        at(
            ts,
            i,
            relex::strung(exported::pieces_tokens(ans, xs), seq![TokV::Sign(Sign::Comma)]),
        ),
        ts.len() == i + relex::strung(
            exported::pieces_tokens(ans, xs),
            seq![TokV::Sign(Sign::Comma)],
        ).len(),
    ensures
        are_parts(ts, i, acc, acc + piece_parts(ans, xs), ts.len() as int),
    decreases xs.len(),
{
    let comma = seq![TokV::Sign(Sign::Comma)];
    let ks = exported::pieces_tokens(ans, xs);
    let head = exported::piece_tokens(ans, xs[0]);
    let k = i + head.len();
    let next = acc.push(piece_part(ans, xs[0]));
    assert(ks[0] == head);
    if xs.len() == 1 {
        lemma_piece(ts, i, ans, xs[0]);
        lemma_parts_rule(ts, i, piece_part(ans, xs[0]), k, acc);
        assert(next =~= acc + piece_parts(ans, xs));
    } else {
        let rest = xs.skip(1);
        let tail = relex::strung(exported::pieces_tokens(ans, rest), comma);
        assert(ks.skip(1) =~= exported::pieces_tokens(ans, rest));
        assert(relex::strung(ks, comma) =~= head + (comma + tail));
        lemma_at_parts(ts, i, head, comma + tail);
        lemma_at_parts(ts, k, comma, tail);
        lemma_at(ts, k, comma, 0);
        lemma_piece(ts, i, ans, xs[0]);
        lemma_parts_rule(ts, i, piece_part(ans, xs[0]), k, acc);
        assert forall|j: int| 0 <= j < rest.len() implies exported::writable_piece(
            ans,
            #[trigger] rest[j],
        ) by {
            assert(rest[j] == xs[j + 1]);
        }
        lemma_pieces(ts, k + 1, ans, rest, next);
        assert(next + piece_parts(ans, rest) =~= acc + piece_parts(ans, xs));
    }
}

/// The statement that the query is.
pub open spec fn creation(ans: AnswersV, xs: Seq<PieceV>) -> StmtV {
    StmtV::Query(seq![ClauseV::Create(piece_parts(ans, xs))])
}

proof fn lemma_statement_rule(ts: Seq<TokenV>, ps: Seq<PartV>)
    requires
        ts.len() > 1,
        grammar::kw(ts, 0) == Kw::Create,
        grammar::kw(ts, 1) != Kw::Constraint,
        are_parts(ts, 1, seq![], ps, ts.len() as int),
    ensures
        parser::statement(ts) == Ok::<StmtV, ErrV>(StmtV::Query(seq![ClauseV::Create(ps)])),
{
    reveal(are_parts);
    let n = ts.len() as int;
    let c = ClauseV::Create(ps);
    let s = StmtV::Query(seq![c]);
    let none = Seq::<ClauseV>::empty();
    assert(parser::clause(ts, 0) == Ok::<(ClauseV, int), ErrV>((c, n)));
    assert(none.push(c) =~= seq![c]);
    assert(grammar::kw(ts, n) == Kw::Other);
    assert(parser::clauses(ts, n, seq![c]) == Ok::<(Seq<ClauseV>, int), ErrV>((seq![c], n)));
    assert(parser::clauses(ts, 0, none) == Ok::<(Seq<ClauseV>, int), ErrV>((seq![c], n)));
    assert(parser::union_rest(ts, n, s) == Ok::<(StmtV, int), ErrV>((s, n)));
}

/// The query goes on with a node.
proof fn lemma_begins(ans: AnswersV, xs: Seq<PieceV>)
    requires
        xs.len() > 0,
    ensures
        ({
            let tail = relex::strung(
                exported::pieces_tokens(ans, xs),
                seq![TokV::Sign(Sign::Comma)],
            );
            tail.len() > 0 && tail[0] == TokV::Sign(Sign::LParen)
        }),
{
    let t = exported::pieces_tokens(ans, xs);
    assert(t[0] == exported::piece_tokens(ans, xs[0]));
    assert(t[0][0] == TokV::Sign(Sign::LParen));
}

proof fn lemma_statement(ts: Seq<TokenV>, ans: AnswersV, xs: Seq<PieceV>)
    requires
        xs.len() > 0,
        forall|j: int| 0 <= j < xs.len() ==> exported::writable_piece(ans, #[trigger] xs[j]),
        relex::kinds(ts) == exported::query_tokens(ans, xs),
    ensures
        parser::statement(ts) == Ok::<StmtV, ErrV>(creation(ans, xs)),
{
    let create = seq![TokV::Word("CREATE"@, Kw::Create)];
    let tail = relex::strung(exported::pieces_tokens(ans, xs), seq![TokV::Sign(Sign::Comma)]);
    assert(at(ts, 0, create + tail)) by {
        reveal(relex::stands);
    }
    lemma_at_parts(ts, 0, create, tail);
    lemma_at(ts, 0, create, 0);
    assert(relex::kinds(ts).len() == ts.len());
    lemma_begins(ans, xs);
    lemma_at(ts, 1, tail, 0);
    lemma_pieces(ts, 1, ans, xs, seq![]);
    assert(Seq::<PartV>::empty() + piece_parts(ans, xs) =~= piece_parts(ans, xs));
    lemma_statement_rule(ts, piece_parts(ans, xs));
}

/// The query of some parts is the statement that creates them.
pub proof fn lemma_query_parsed(ans: AnswersV, xs: Seq<PieceV>)
    requires
        xs.len() > 0,
        forall|j: int| 0 <= j < xs.len() ==> exported::writable_piece(ans, #[trigger] xs[j]),
    ensures
        parser::statement_of(
            "CREATE\n  "@ + text::joined(exported::piece_texts(ans, xs), ",\n  "@),
        ) == Ok::<StmtV, ErrV>(creation(ans, xs)),
{
    exported::lemma_query_reads(ans, xs);
    let q = "CREATE\n  "@ + text::joined(exported::piece_texts(ans, xs), ",\n  "@);
    let ts = relex::lemma_whole(q, exported::query_tokens(ans, xs));
    lemma_statement(ts, ans, xs);
}

} // verus!
