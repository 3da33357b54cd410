//! Patterns and clauses are read as they are written.
use crate::ast::{
    ChainV, ClauseV, Direction, ExprV, ItemV, KeyV, MatchKind, NodePatV, PartV, PatternV, ProjV,
    RangeSpec, RelPatV, RemoveV, SetV, SortV,
};
use crate::error::ErrV;
use crate::grammar;
use crate::lexer::{Kw, Sign, TokenV, TokV};
use crate::parser;
use crate::precedence;
use crate::relex;
use crate::text::nat_text;
use vstd::prelude::*;

verus! {

// ---------------------------------------------------------------------------
// Tokens
// ---------------------------------------------------------------------------

/// Some tokens stand at a place.
#[verifier::opaque]
pub open spec fn placed(ts: Seq<TokenV>, i: int, ks: Seq<TokV>) -> bool {
    precedence::stands(ts, i, ks)
}

proof fn lemma_cut(ts: Seq<TokenV>, i: int, a: Seq<TokV>, b: Seq<TokV>)
    requires
        placed(ts, i, a + b),
    ensures
        placed(ts, i, a),
        placed(ts, i + a.len(), b),
        0 <= i,
        i + a.len() + b.len() <= ts.len(),
{
    reveal(placed);
    precedence::lemma_split(ts, i, a, b);
}

proof fn lemma_cut_five(
    ts: Seq<TokenV>,
    i: int,
    a: Seq<TokV>,
    b: Seq<TokV>,
    c: Seq<TokV>,
    d: Seq<TokV>,
    e: Seq<TokV>,
)
    requires
        placed(ts, i, a + b + c + d + e),
    ensures
        placed(ts, i, a),
        placed(ts, i + a.len(), b),
        placed(ts, i + a.len() + b.len(), c),
        placed(ts, i + a.len() + b.len() + c.len(), d),
        placed(ts, i + a.len() + b.len() + c.len() + d.len(), e),
        (a + b + c + d + e).len() == a.len() + b.len() + c.len() + d.len() + e.len(),
        0 <= i,
        i + a.len() + b.len() + c.len() + d.len() + e.len() <= ts.len(),
{
    lemma_cut(ts, i, a + b + c + d, e);
    lemma_cut(ts, i, a + b + c, d);
    lemma_cut(ts, i, a + b, c);
    lemma_cut(ts, i, a, b);
}

proof fn lemma_first(ts: Seq<TokenV>, i: int, t: TokV)
    requires
        placed(ts, i, seq![t]),
    ensures
        0 <= i < ts.len(),
        precedence::same_token(ts[i].tok, t),
{
    reveal(placed);
    precedence::lemma_one(ts, i, t);
}

proof fn lemma_expr(e: ExprV, ts: Seq<TokenV>, i: int)
    requires
        precedence::writable(e),
        placed(ts, i, precedence::written(e)),
        precedence::binds(ts, i + precedence::written(e).len()) < 0,
    ensures
        found(grammar::expr(ts, i), e, i + precedence::written(e).len()),
        0 <= i < i + precedence::written(e).len() <= ts.len(),
        grammar::kw(ts, i) != Kw::Distinct,
        grammar::sign(ts, i) != Some(Sign::Star),
{
    reveal(placed);
    precedence::lemma_written_read(e, ts, i);
}

// ---------------------------------------------------------------------------
// How patterns are written
// ---------------------------------------------------------------------------

pub open spec fn maybe_id(v: Option<Seq<char>>) -> Seq<TokV> {
    match v {
        Some(x) => precedence::id(x),
        None => seq![],
    }
}

pub open spec fn labels_text(ls: Seq<Seq<char>>, k: int) -> Seq<TokV>
    decreases ls.len() - k,
{
    if k < 0 || k >= ls.len() {
        seq![]
    } else {
        precedence::mark(Sign::Colon) + precedence::id(ls[k]) + labels_text(ls, k + 1)
    }
}

pub open spec fn key_text(k: KeyV) -> Seq<TokV> {
    match k {
        KeyV::Identifier(w) => precedence::id(w),
        KeyV::Expression(_) => seq![],
    }
}

pub open spec fn entries_text(es: Seq<(KeyV, ExprV)>, k: int) -> Seq<TokV>
    decreases es.len() - k,
{
    if k < 0 || k >= es.len() {
        seq![]
    } else {
        key_text(es[k].0) + precedence::mark(Sign::Colon) + precedence::written(es[k].1) + (if k + 1 < es.len() {
            precedence::mark(Sign::Comma)
        } else {
            precedence::mark(Sign::RBrace)
        }) + entries_text(es, k + 1)
    }
}

pub open spec fn props_text(o: Option<Seq<(KeyV, ExprV)>>) -> Seq<TokV> {
    match o {
        Some(es) => precedence::mark(Sign::LBrace) + entries_text(es, 0),
        None => seq![],
    }
}

/// Properties have names for keys, expressions that can be written, and are not
/// an empty map.
pub open spec fn props_writable(o: Option<Seq<(KeyV, ExprV)>>) -> bool {
    o matches Some(es) ==> es.len() > 0 && forall|k: int|
        0 <= k < es.len() ==> (#[trigger] es[k]).0 is Identifier && precedence::writable(es[k].1)
}

pub open spec fn node_text(np: NodePatV) -> Seq<TokV> {
    precedence::mark(Sign::LParen) + maybe_id(np.variable) + labels_text(np.labels, 0) + props_text(
        np.properties,
    ) + precedence::mark(Sign::RParen)
}

pub open spec fn types_text(types: Seq<Seq<char>>, k: int) -> Seq<TokV>
    decreases types.len() - k,
{
    if k < 0 || k >= types.len() {
        seq![]
    } else {
        precedence::mark(
            if k == 0 {
                Sign::Colon
            } else {
                Sign::Pipe
            },
        ) + precedence::id(types[k]) + types_text(types, k + 1)
    }
}

pub open spec fn number_text(n: Option<u64>) -> Seq<TokV> {
    match n {
        Some(x) => seq![TokV::Integer(nat_text(x as nat))],
        None => seq![],
    }
}

pub open spec fn range_text(r: Option<RangeSpec>) -> Seq<TokV> {
    match r {
        None => seq![],
        Some(s) => if s.min == s.max {
            precedence::mark(Sign::Star) + number_text(s.min)
        } else {
            precedence::mark(Sign::Star) + number_text(s.min) + precedence::mark(Sign::DotDot) + number_text(s.max)
        },
    }
}

/// The head of an arrow that points in, which stands before it.
pub open spec fn before_text(r: RelPatV) -> Seq<TokV> {
    if r.direction == Direction::Incoming {
        precedence::mark(Sign::Lt)
    } else {
        seq![]
    }
}

/// The head of an arrow that points out, which stands behind it.
pub open spec fn behind_arrow(r: RelPatV) -> Seq<TokV> {
    if r.direction == Direction::Outgoing {
        precedence::mark(Sign::Gt)
    } else {
        seq![]
    }
}

/// A relationship: an arrow that points out has its head behind it, one that
/// points in has it before it, and one without direction has none.
pub open spec fn rel_text(r: RelPatV) -> Seq<TokV> {
    before_text(r) + precedence::mark(Sign::Minus) + precedence::mark(Sign::LBrack) + detail_text(r)
        + precedence::mark(Sign::Minus) + behind_arrow(r)
}

pub open spec fn chain_text(es: Seq<ChainV>, k: int) -> Seq<TokV>
    decreases es.len() - k,
{
    if k < 0 || k >= es.len() {
        seq![]
    } else {
        rel_text(es[k].relationship) + node_text(es[k].node) + chain_text(es, k + 1)
    }
}

pub open spec fn chain_writable(es: Seq<ChainV>) -> bool {
    forall|k: int|
        0 <= k < es.len() ==> props_writable((#[trigger] es[k]).relationship.properties)
            && props_writable(es[k].node.properties)
}

// ---------------------------------------------------------------------------
// How patterns are read
// ---------------------------------------------------------------------------

/// What was found, and where it ends.
pub open spec fn found<T>(r: grammar::FoundV<T>, x: T, j: int) -> bool {
    r == Ok::<(T, int), ErrV>((x, j))
}

proof fn lemma_read_labels(ls: Seq<Seq<char>>, k: int, acc: Seq<Seq<char>>, ts: Seq<TokenV>, i: int)
    requires
        0 <= k <= ls.len(),
        acc == ls.take(k),
        placed(ts, i, labels_text(ls, k)),
        grammar::sign(ts, i + labels_text(ls, k).len()) != Some(Sign::Colon),
    ensures
        grammar::labels(ts, i, acc) == (ls, i + labels_text(ls, k).len()),
    decreases ls.len() - k,
{
    if k < ls.len() {
        let c = precedence::mark(Sign::Colon);
        let n = precedence::id(ls[k]);
        let rest = labels_text(ls, k + 1);
        lemma_cut(ts, i, c + n, rest);
        lemma_cut(ts, i, c, n);
        lemma_first(ts, i, c[0]);
        lemma_first(ts, i + 1, n[0]);
        assert(acc.push(ls[k]) =~= ls.take(k + 1));
        lemma_read_labels(ls, k + 1, acc.push(ls[k]), ts, i + 2);
    } else {
        assert(ls.take(k) =~= ls);
    }
}

#[verifier::spinoff_prover]
#[verifier::rlimit(40)]
proof fn lemma_read_entries(
    es: Seq<(KeyV, ExprV)>,
    k: int,
    acc: Seq<(KeyV, ExprV)>,
    ts: Seq<TokenV>,
    i: int,
)
    requires
        0 <= k < es.len(),
        props_writable(Some(es)),
        acc == es.take(k),
        placed(ts, i, entries_text(es, k)),
    ensures
        found(grammar::entries(ts, i, acc), es, i + entries_text(es, k).len()),
        i < i + entries_text(es, k).len() <= ts.len(),
        grammar::sign(ts, i) != Some(Sign::RBrace),
    decreases es.len() - k,
{
    let w = es[k].0->Identifier_0;
    let n = precedence::id(w);
    let c = precedence::mark(Sign::Colon);
    let t = precedence::written(es[k].1);
    let d = if k + 1 < es.len() {
        precedence::mark(Sign::Comma)
    } else {
        precedence::mark(Sign::RBrace)
    };
    let rest = entries_text(es, k + 1);
    let p = i + 2 + t.len();
    assert(entries_text(es, k) == n + c + t + d + rest);
    lemma_cut_five(ts, i, n, c, t, d, rest);
    lemma_first(ts, i, n[0]);
    lemma_first(ts, i + 1, c[0]);
    lemma_first(ts, p, d[0]);
    lemma_expr(es[k].1, ts, i + 2);
    assert(found(grammar::map_key(ts, i), es[k].0, i + 1));
    lemma_entry_rule(es[k], acc, ts, i, p);
    if k + 1 < es.len() {
        assert(acc.push(es[k]) =~= es.take(k + 1));
        lemma_read_entries(es, k + 1, acc.push(es[k]), ts, p + 1);
    } else {
        assert(acc.push(es[k]) =~= es);
        assert(rest.len() == 0);
    }
}

proof fn lemma_entry_rule(
    e: (KeyV, ExprV),
    acc: Seq<(KeyV, ExprV)>,
    ts: Seq<TokenV>,
    i: int,
    p: int,
)
    requires
        0 <= i,
        i + 2 < p < ts.len(),
        found(grammar::map_key(ts, i), e.0, i + 1),
        grammar::sign(ts, i + 1) == Some(Sign::Colon),
        found(grammar::expr(ts, i + 2), e.1, p),
    ensures
        grammar::sign(ts, p) == Some(Sign::Comma) ==> grammar::entries(ts, i, acc)
            == grammar::entries(ts, p + 1, acc.push(e)),
        grammar::sign(ts, p) == Some(Sign::RBrace) ==> found(
            grammar::entries(ts, i, acc),
            acc.push(e),
            p + 1,
        ),
{
    assert(e == (e.0, e.1));
}

proof fn lemma_read_props(o: Option<Seq<(KeyV, ExprV)>>, ts: Seq<TokenV>, i: int)
    requires
        props_writable(o),
        placed(ts, i, props_text(o)),
        o is None ==> grammar::sign(ts, i) != Some(Sign::LBrace),
    ensures
        found(grammar::maybe_dict(ts, i), o, i + props_text(o).len()),
        o is Some ==> grammar::sign(ts, i) == Some(Sign::LBrace),
{
    if let Some(es) = o {
        let b = precedence::mark(Sign::LBrace);
        let rest = entries_text(es, 0);
        lemma_cut(ts, i, b, rest);
        lemma_first(ts, i, b[0]);
        assert(es.take(0) =~= seq![]);
        lemma_read_entries(es, 0, seq![], ts, i + 1);
        assert(found(grammar::dict(ts, i), es, i + props_text(o).len()));
    }
}

#[verifier::spinoff_prover]
#[verifier::rlimit(40)]
pub proof fn lemma_read_node(np: NodePatV, ts: Seq<TokenV>, i: int)
    requires
        props_writable(np.properties),
        placed(ts, i, node_text(np)),
    ensures
        found(grammar::node(ts, i), np, i + node_text(np).len()),
        i < i + node_text(np).len() <= ts.len(),
        grammar::sign(ts, i) == Some(Sign::LParen),
{
    let o = precedence::mark(Sign::LParen);
    let v = maybe_id(np.variable);
    let l = labels_text(np.labels, 0);
    let d = props_text(np.properties);
    let c = precedence::mark(Sign::RParen);
    let a = i + 1 + v.len();
    let b = a + l.len();
    let e = b + d.len();
    lemma_cut(ts, i, o + v + l + d, c);
    lemma_cut(ts, i, o + v + l, d);
    lemma_cut(ts, i, o + v, l);
    lemma_cut(ts, i, o, v);
    lemma_first(ts, i, o[0]);
    lemma_first(ts, e, c[0]);
    if np.properties is None {
        assert(d.len() == 0);
    }
    lemma_read_props(np.properties, ts, b);
    if np.labels.len() > 0 {
        let r = labels_text(np.labels, 1);
        let h = precedence::mark(Sign::Colon) + precedence::id(np.labels[0]);
        lemma_cut(ts, a, h, r);
        lemma_cut(ts, a, precedence::mark(Sign::Colon), precedence::id(np.labels[0]));
        lemma_first(ts, a, precedence::mark(Sign::Colon)[0]);
    } else {
        assert(l.len() == 0);
    }
    assert(np.labels.take(0) =~= seq![]);
    lemma_read_labels(np.labels, 0, seq![], ts, a);
    if let Some(x) = np.variable {
        lemma_first(ts, i + 1, precedence::id(x)[0]);
    }
    assert(grammar::maybe_variable(ts, i + 1) == (np.variable, a));
    assert(found(grammar::node(ts, i), np, e + 1));
}

proof fn lemma_read_types(types: Seq<Seq<char>>, k: int, ts: Seq<TokenV>, i: int)
    requires
        0 < k <= types.len(),
        placed(ts, i, types_text(types, k)),
        grammar::sign(ts, i + types_text(types, k).len()) != Some(Sign::Pipe),
    ensures
        grammar::more_types(ts, i, types.take(k)) == (types, i + types_text(types, k).len()),
    decreases types.len() - k,
{
    if k < types.len() {
        let c = precedence::mark(Sign::Pipe);
        let n = precedence::id(types[k]);
        let rest = types_text(types, k + 1);
        lemma_cut(ts, i, c + n, rest);
        lemma_cut(ts, i, c, n);
        lemma_first(ts, i, c[0]);
        lemma_first(ts, i + 1, n[0]);
        assert(types.take(k).push(types[k]) =~= types.take(k + 1));
        lemma_read_types(types, k + 1, ts, i + 2);
    } else {
        assert(types.take(k) =~= types);
    }
}

proof fn lemma_read_number(n: Option<u64>, ts: Seq<TokenV>, i: int, what: Seq<char>)
    requires
        0 <= i,
        placed(ts, i, number_text(n)),
        n is None ==> !(0 <= i < ts.len() && ts[i].tok is Integer),
    ensures
        found(grammar::hops(ts, i, what), n, i + number_text(n).len()),
{
    if let Some(x) = n {
        lemma_first(ts, i, TokV::Integer(nat_text(x as nat)));
        relex::lemma_nat_digits(x as nat);
    }
}

proof fn lemma_read_range(r: Option<RangeSpec>, ts: Seq<TokenV>, i: int)
    requires
        placed(ts, i, range_text(r)),
        ({
            let j = i + range_text(r).len();
            0 <= j < ts.len() && !(ts[j].tok is Integer) && grammar::sign(ts, j) != Some(Sign::Star)
                && grammar::sign(ts, j) != Some(Sign::DotDot)
        }),
    ensures
        found(grammar::range(ts, i), r, i + range_text(r).len()),
        r is Some ==> grammar::sign(ts, i) == Some(Sign::Star),
{
    if let Some(s) = r {
        let o = precedence::mark(Sign::Star);
        let a = number_text(s.min);
        let k = i + 1 + a.len();
        if s.min == s.max {
            lemma_cut(ts, i, o, a);
            lemma_first(ts, i, o[0]);
            lemma_read_number(s.min, ts, i + 1, "Invalid range min"@);
        } else {
            let d = precedence::mark(Sign::DotDot);
            let b = number_text(s.max);
            lemma_cut(ts, i, o + a + d, b);
            lemma_cut(ts, i, o + a, d);
            lemma_cut(ts, i, o, a);
            lemma_first(ts, i, o[0]);
            lemma_first(ts, k, d[0]);
            lemma_read_number(s.min, ts, i + 1, "Invalid range min"@);
            lemma_read_number(s.max, ts, k + 1, "Invalid range max"@);
        }
    }
}

pub open spec fn detail_text(r: RelPatV) -> Seq<TokV> {
    maybe_id(r.variable) + types_text(r.rel_types, 0) + range_text(r.range) + props_text(
        r.properties,
    ) + precedence::mark(Sign::RBrack)
}

proof fn lemma_detail_rule(
    r: RelPatV,
    ts: Seq<TokenV>,
    i: int,
    p1: int,
    p2: int,
    p3: int,
    p4: int,
)
    requires
        0 <= i <= p1 <= p2 <= p3 <= p4 < ts.len(),
        grammar::maybe_variable(ts, i) == (r.variable, p1),
        grammar::types(ts, p1) == (r.rel_types, p2),
        found(grammar::range(ts, p2), r.range, p3),
        found(grammar::maybe_dict(ts, p3), r.properties, p4),
        grammar::sign(ts, p4) == Some(Sign::RBrack),
    ensures
        found(
            grammar::detail(ts, i, Direction::Undirected),
            (RelPatV { direction: Direction::Undirected, ..r }),
            p4 + 1,
        ),
{
}

/// What stands between the square brackets of a relationship is read back.
#[verifier::spinoff_prover]
#[verifier::rlimit(40)]
proof fn lemma_read_detail(r: RelPatV, ts: Seq<TokenV>, i: int)
    requires
        props_writable(r.properties),
        placed(ts, i, detail_text(r)),
    ensures
        found(
            grammar::detail(ts, i, Direction::Undirected),
            (RelPatV { direction: Direction::Undirected, ..r }),
            i + detail_text(r).len(),
        ),
        0 <= i < i + detail_text(r).len() <= ts.len(),
{
    let v = maybe_id(r.variable);
    let t = types_text(r.rel_types, 0);
    let g = range_text(r.range);
    let d = props_text(r.properties);
    let c = precedence::mark(Sign::RBrack);
    let p1 = i + v.len();
    let p2 = p1 + t.len();
    let p3 = p2 + g.len();
    let p4 = p3 + d.len();
    lemma_cut_five(ts, i, v, t, g, d, c);
    lemma_first(ts, p4, c[0]);
    lemma_tail_places(r, ts, p2, p3, p4);
    lemma_head_places(r, ts, i, p1, p2);
    lemma_detail_rule(r, ts, i, p1, p2, p3, p4);
}

proof fn lemma_tail_places(r: RelPatV, ts: Seq<TokenV>, p2: int, p3: int, p4: int)
    requires
        props_writable(r.properties),
        placed(ts, p2, range_text(r.range)),
        p3 == p2 + range_text(r.range).len(),
        placed(ts, p3, props_text(r.properties)),
        p4 == p3 + props_text(r.properties).len(),
        0 <= p2,
        p4 < ts.len(),
        grammar::sign(ts, p4) == Some(Sign::RBrack),
    ensures
        found(grammar::range(ts, p2), r.range, p3),
        found(grammar::maybe_dict(ts, p3), r.properties, p4),
        grammar::sign(ts, p2) == Some(Sign::Star) || grammar::sign(ts, p2) == Some(Sign::LBrace)
            || grammar::sign(ts, p2) == Some(Sign::RBrack),
{
    if r.properties is None {
        assert(props_text(r.properties).len() == 0);
    }
    lemma_read_props(r.properties, ts, p3);
    lemma_read_range(r.range, ts, p2);
    if r.range is None {
        assert(range_text(r.range).len() == 0);
    }
}

proof fn lemma_head_places(r: RelPatV, ts: Seq<TokenV>, i: int, p1: int, p2: int)
    requires
        placed(ts, i, maybe_id(r.variable)),
        p1 == i + maybe_id(r.variable).len(),
        placed(ts, p1, types_text(r.rel_types, 0)),
        p2 == p1 + types_text(r.rel_types, 0).len(),
        0 <= i,
        p2 < ts.len(),
        grammar::sign(ts, p2) == Some(Sign::Star) || grammar::sign(ts, p2) == Some(Sign::LBrace)
            || grammar::sign(ts, p2) == Some(Sign::RBrack),
    ensures
        grammar::maybe_variable(ts, i) == (r.variable, p1),
        grammar::types(ts, p1) == (r.rel_types, p2),
{
    let types = r.rel_types;
    if types.len() > 0 {
        let h = precedence::mark(Sign::Colon);
        let n = precedence::id(types[0]);
        let rest = types_text(types, 1);
        lemma_cut(ts, p1, h + n, rest);
        lemma_cut(ts, p1, h, n);
        lemma_first(ts, p1, h[0]);
        lemma_first(ts, p1 + 1, n[0]);
        assert(types.take(1) =~= seq![types[0]]);
        lemma_read_types(types, 1, ts, p1 + 2);
    } else {
        assert(types_text(types, 0).len() == 0);
        assert(types =~= seq![]);
    }
    if let Some(x) = r.variable {
        lemma_first(ts, i, precedence::id(x)[0]);
    } else {
        assert(maybe_id(r.variable).len() == 0);
    }
}

proof fn lemma_rel_rule(r: RelPatV, ts: Seq<TokenV>, i: int, a: int, k: int, j: int)
    requires
        0 <= i,
        a == if r.direction == Direction::Incoming {
            i + 1
        } else {
            i
        },
        a + 1 < k < ts.len(),
        r.direction == Direction::Incoming ==> grammar::sign(ts, i) == Some(Sign::Lt),
        grammar::sign(ts, a) == Some(Sign::Minus),
        grammar::sign(ts, a + 1) == Some(Sign::LBrack),
        found(
            grammar::detail(ts, a + 2, Direction::Undirected),
            (RelPatV { direction: Direction::Undirected, ..r }),
            k,
        ),
        grammar::sign(ts, k) == Some(Sign::Minus),
        r.direction == Direction::Outgoing <==> grammar::sign(ts, k + 1) == Some(Sign::Gt),
        j == if r.direction == Direction::Outgoing {
            k + 2
        } else {
            k + 1
        },
    ensures
        found(grammar::rel(ts, i), r, j),
        grammar::rel_begins(ts, i),
{
}

/// The pattern of a relationship is read back, with the direction of its arrow.
#[verifier::spinoff_prover]
#[verifier::rlimit(40)]
pub proof fn lemma_read_rel(r: RelPatV, ts: Seq<TokenV>, i: int)
    requires
        props_writable(r.properties),
        placed(ts, i, rel_text(r)),
        grammar::sign(ts, i + rel_text(r).len()) != Some(Sign::Gt),
    ensures
        found(grammar::rel(ts, i), r, i + rel_text(r).len()),
        i < i + rel_text(r).len() <= ts.len(),
        grammar::rel_begins(ts, i),
{
    let h = before_text(r);
    let m = precedence::mark(Sign::Minus);
    let o = precedence::mark(Sign::LBrack);
    let inner = detail_text(r);
    let z = behind_arrow(r);
    let a = i + h.len();
    let k = a + 2 + inner.len();
    lemma_cut_five(ts, i, h + m, o, inner, m, z);
    lemma_cut(ts, i, h, m);
    lemma_first(ts, a, m[0]);
    lemma_first(ts, a + 1, o[0]);
    lemma_first(ts, k, m[0]);
    if r.direction == Direction::Incoming {
        lemma_first(ts, i, h[0]);
    }
    if r.direction == Direction::Outgoing {
        lemma_first(ts, k + 1, z[0]);
    }
    lemma_read_detail(r, ts, a + 2);
    lemma_rel_rule(r, ts, i, a, k, k + 1 + z.len());
}

#[verifier::spinoff_prover]
#[verifier::rlimit(40)]
proof fn lemma_read_chain(es: Seq<ChainV>, k: int, ts: Seq<TokenV>, i: int)
    requires
        0 <= k <= es.len(),
        chain_writable(es),
        placed(ts, i, chain_text(es, k)),
        grammar::sign(ts, i + chain_text(es, k).len()) != Some(Sign::Minus),
        grammar::sign(ts, i + chain_text(es, k).len()) != Some(Sign::Lt),
    ensures
        found(grammar::chain(ts, i, es.take(k)), es, i + chain_text(es, k).len()),
    decreases es.len() - k,
{
    if k < es.len() {
        let r = rel_text(es[k].relationship);
        let n = node_text(es[k].node);
        let rest = chain_text(es, k + 1);
        lemma_cut(ts, i, r + n, rest);
        lemma_cut(ts, i, r, n);
        lemma_read_node(es[k].node, ts, i + r.len());
        lemma_read_rel(es[k].relationship, ts, i);
        let c = ChainV { relationship: es[k].relationship, node: es[k].node };
        assert(es.take(k).push(c) =~= es.take(k + 1));
        lemma_read_chain(es, k + 1, ts, i + r.len() + n.len());
    } else {
        assert(es.take(k) =~= es);
    }
}

pub open spec fn pattern_text(p: PatternV) -> Seq<TokV> {
    match p {
        PatternV::Node(np) => node_text(np),
        PatternV::Chain { start, elements } => node_text(start) + chain_text(elements, 0),
        PatternV::ShortestPath { start, relationship, end } => precedence::word(Kw::ShortestPath) + precedence::mark(
            Sign::LParen,
        ) + node_text(start) + rel_text(relationship) + node_text(end) + precedence::mark(Sign::RParen),
        PatternV::AllShortestPaths { start, relationship, end } => precedence::word(Kw::AllShortestPaths)
            + precedence::mark(Sign::LParen) + node_text(start) + rel_text(relationship) + node_text(end) + precedence::mark(
            Sign::RParen,
        ),
    }
}

pub open spec fn pattern_writable(p: PatternV) -> bool {
    match p {
        PatternV::Node(np) => props_writable(np.properties),
        PatternV::Chain { start, elements } => elements.len() > 0 && props_writable(
            start.properties,
        ) && chain_writable(elements),
        PatternV::ShortestPath { start, relationship, end } => props_writable(start.properties)
            && props_writable(relationship.properties) && props_writable(end.properties),
        PatternV::AllShortestPaths { start, relationship, end } => props_writable(start.properties)
            && props_writable(relationship.properties) && props_writable(end.properties),
    }
}

/// A pattern is read back: its nodes with their variables, labels and
/// properties, and its relationships with their types, their lengths and the
/// directions of their arrows.
#[verifier::spinoff_prover]
#[verifier::rlimit(40)]
pub proof fn lemma_read_pattern(p: PatternV, ts: Seq<TokenV>, i: int)
    requires
        pattern_writable(p),
        placed(ts, i, pattern_text(p)),
        grammar::sign(ts, i + pattern_text(p).len()) != Some(Sign::Minus),
        grammar::sign(ts, i + pattern_text(p).len()) != Some(Sign::Lt),
    ensures
        grammar::pattern(ts, i) == Ok::<(PatternV, int), ErrV>((p, i + pattern_text(p).len())),
        i < i + pattern_text(p).len() <= ts.len(),
{
    match p {
        PatternV::Node(np) => {
            lemma_read_node(np, ts, i);
            let none: Seq<ChainV> = seq![];
            let j = i + node_text(np).len();
            assert(found(grammar::chain(ts, j, none), none, j));
        },
        PatternV::Chain { start, elements } => {
            let n = node_text(start);
            lemma_cut(ts, i, n, chain_text(elements, 0));
            lemma_read_node(start, ts, i);
            assert(elements.take(0) =~= seq![]);
            lemma_read_chain(elements, 0, ts, i + n.len());
        },
        PatternV::ShortestPath { start, relationship, end } => {
            lemma_read_ends(Kw::ShortestPath, start, relationship, end, ts, i);
        },
        PatternV::AllShortestPaths { start, relationship, end } => {
            lemma_read_ends(Kw::AllShortestPaths, start, relationship, end, ts, i);
        },
    }
}

#[verifier::spinoff_prover]
#[verifier::rlimit(40)]
proof fn lemma_read_ends(
    w: Kw,
    a: NodePatV,
    r: RelPatV,
    b: NodePatV,
    ts: Seq<TokenV>,
    i: int,
)
    requires
        props_writable(a.properties) && props_writable(r.properties) && props_writable(b.properties),
        w != Kw::Other,
        placed(
            ts,
            i,
            precedence::word(w) + precedence::mark(Sign::LParen) + node_text(a) + rel_text(r) + node_text(b) + precedence::mark(
                Sign::RParen,
            ),
        ),
    ensures
        ({
            let j = i + (precedence::word(w) + precedence::mark(Sign::LParen) + node_text(a) + rel_text(r) + node_text(b)
                + precedence::mark(Sign::RParen)).len();
            &&& grammar::kw(ts, i) == w
            &&& grammar::sign(ts, i + 1) == Some(Sign::LParen)
            &&& found(grammar::ends(ts, i + 2), (a, r, b), j)
            &&& i < j <= ts.len()
        }),
{
    let h = precedence::word(w);
    let o = precedence::mark(Sign::LParen);
    let x = node_text(a);
    let y = rel_text(r);
    let z = node_text(b);
    let c = precedence::mark(Sign::RParen);
    let p1 = i + 2 + x.len();
    let p2 = p1 + y.len();
    let p3 = p2 + z.len();
    lemma_cut_five(ts, i, h + o, x, y, z, c);
    lemma_cut(ts, i, h, o);
    lemma_first(ts, i, h[0]);
    lemma_first(ts, i + 1, o[0]);
    lemma_first(ts, p3, c[0]);
    lemma_read_node(a, ts, i + 2);
    lemma_read_node(b, ts, p2);
    lemma_read_rel(r, ts, p1);
    lemma_ends_rule(a, r, b, ts, i + 2, p1, p2, p3);
}

proof fn lemma_ends_rule(
    a: NodePatV,
    r: RelPatV,
    b: NodePatV,
    ts: Seq<TokenV>,
    i: int,
    p1: int,
    p2: int,
    p3: int,
)
    requires
        0 <= i < p1 < p2 < p3 < ts.len(),
        found(grammar::node(ts, i), a, p1),
        found(grammar::rel(ts, p1), r, p2),
        found(grammar::node(ts, p2), b, p3),
        grammar::sign(ts, p3) == Some(Sign::RParen),
    ensures
        found(grammar::ends(ts, i), (a, r, b), p3 + 1),
{
}

// ---------------------------------------------------------------------------
// How clauses are written
// ---------------------------------------------------------------------------

pub open spec fn item_text(x: ItemV) -> Seq<TokV> {
    precedence::written(x.expression) + (match x.alias {
        Some(a) => precedence::word(Kw::As) + precedence::id(a),
        None => seq![],
    })
}

pub open spec fn sort_text(x: SortV) -> Seq<TokV> {
    precedence::written(x.expression) + precedence::word(
        if x.ascending {
            Kw::Asc
        } else {
            Kw::Desc
        },
    )
}

pub open spec fn set_text(x: SetV) -> Seq<TokV> {
    match x {
        SetV::Property { variable, property, expression } => precedence::id(variable) + precedence::mark(Sign::Dot) + precedence::id(
            property,
        ) + precedence::mark(Sign::Eq) + precedence::written(expression),
        SetV::AllProperties { variable, expression } => precedence::id(variable) + precedence::mark(Sign::Eq) + precedence::written(expression),
        SetV::MergeProperties { variable, expression } => precedence::id(variable) + precedence::mark(Sign::PlusEq) + precedence::written(expression),
        SetV::Label { variable, labels } => precedence::id(variable) + labels_text(labels, 0),
    }
}

pub open spec fn set_writable(x: SetV) -> bool {
    match x {
        SetV::Property { expression, .. } => precedence::writable(expression),
        SetV::AllProperties { expression, .. } => precedence::writable(expression),
        SetV::MergeProperties { expression, .. } => precedence::writable(expression),
        SetV::Label { labels, .. } => labels.len() > 0,
    }
}

pub open spec fn remove_text(x: RemoveV) -> Seq<TokV> {
    match x {
        RemoveV::Property { variable, property } => precedence::id(variable) + precedence::mark(Sign::Dot) + precedence::id(property),
        RemoveV::Label { variable, labels } => precedence::id(variable) + labels_text(labels, 0),
    }
}

/// Nothing at a place goes on with what stands before it.
pub open spec fn closes(ts: Seq<TokenV>, j: int) -> bool {
    &&& precedence::binds(ts, j) < 0
    &&& grammar::sign(ts, j) != Some(Sign::Colon)
}

/// `e AS a` is read back.
pub proof fn lemma_read_item(x: ItemV, ts: Seq<TokenV>, i: int)
    requires
        precedence::writable(x.expression),
        placed(ts, i, item_text(x)),
        closes(ts, i + item_text(x).len()),
        grammar::kw(ts, i + item_text(x).len()) != Kw::As,
    ensures
        found(parser::item(ts, i), x, i + item_text(x).len()),
        0 <= i < i + item_text(x).len() <= ts.len(),
        grammar::kw(ts, i) != Kw::Distinct,
        grammar::sign(ts, i) != Some(Sign::Star),
{
    let t = precedence::written(x.expression);
    let k = i + t.len();
    if let Some(a) = x.alias {
        lemma_cut(ts, i, t, precedence::word(Kw::As) + precedence::id(a));
        lemma_cut(ts, k, precedence::word(Kw::As), precedence::id(a));
        lemma_first(ts, k, precedence::word(Kw::As)[0]);
        lemma_first(ts, k + 1, precedence::id(a)[0]);
    } else {
        assert(item_text(x) =~= t);
    }
    lemma_expr(x.expression, ts, i);
}

/// `e ASC` and `e DESC` are read back.
pub proof fn lemma_read_sort(x: SortV, ts: Seq<TokenV>, i: int)
    requires
        precedence::writable(x.expression),
        placed(ts, i, sort_text(x)),
    ensures
        found(parser::sort(ts, i), x, i + sort_text(x).len()),
        i < i + sort_text(x).len() <= ts.len(),
{
    let t = precedence::written(x.expression);
    let w = precedence::word(
        if x.ascending {
            Kw::Asc
        } else {
            Kw::Desc
        },
    );
    lemma_cut(ts, i, t, w);
    lemma_first(ts, i + t.len(), w[0]);
    lemma_expr(x.expression, ts, i);
}

/// What SET says is read back: `=` as `=`, and `+=` as `+=`.
#[verifier::spinoff_prover]
#[verifier::rlimit(40)]
pub proof fn lemma_read_set(x: SetV, ts: Seq<TokenV>, i: int)
    requires
        set_writable(x),
        placed(ts, i, set_text(x)),
        closes(ts, i + set_text(x).len()),
    ensures
        found(parser::set_item(ts, i), x, i + set_text(x).len()),
        i < i + set_text(x).len() <= ts.len(),
{
    match x {
        SetV::Property { variable, property, expression } => {
            let v = precedence::id(variable);
            let d = precedence::mark(Sign::Dot);
            let n = precedence::id(property);
            let q = precedence::mark(Sign::Eq);
            let t = precedence::written(expression);
            lemma_cut(ts, i, v + d + n + q, t);
            lemma_cut(ts, i, v + d + n, q);
            lemma_cut(ts, i, v + d, n);
            lemma_cut(ts, i, v, d);
            lemma_first(ts, i, v[0]);
            lemma_first(ts, i + 1, d[0]);
            lemma_first(ts, i + 2, n[0]);
            lemma_first(ts, i + 3, q[0]);
            lemma_expr(expression, ts, i + 4);
        },
        SetV::AllProperties { variable, expression } => {
            let v = precedence::id(variable);
            let q = precedence::mark(Sign::Eq);
            let t = precedence::written(expression);
            lemma_cut(ts, i, v + q, t);
            lemma_cut(ts, i, v, q);
            lemma_first(ts, i, v[0]);
            lemma_first(ts, i + 1, q[0]);
            lemma_expr(expression, ts, i + 2);
        },
        SetV::MergeProperties { variable, expression } => {
            let v = precedence::id(variable);
            let q = precedence::mark(Sign::PlusEq);
            let t = precedence::written(expression);
            lemma_cut(ts, i, v + q, t);
            lemma_cut(ts, i, v, q);
            lemma_first(ts, i, v[0]);
            lemma_first(ts, i + 1, q[0]);
            lemma_expr(expression, ts, i + 2);
        },
        SetV::Label { variable, labels } => {
            let v = precedence::id(variable);
            let l = labels_text(labels, 0);
            lemma_cut(ts, i, v, l);
            lemma_first(ts, i, v[0]);
            lemma_labels_begin(labels, ts, i + 1);
            assert(labels.take(0) =~= seq![]);
            lemma_read_labels(labels, 0, seq![], ts, i + 1);
        },
    }
}

proof fn lemma_labels_begin(ls: Seq<Seq<char>>, ts: Seq<TokenV>, i: int)
    requires
        ls.len() > 0,
        placed(ts, i, labels_text(ls, 0)),
    ensures
        grammar::sign(ts, i) == Some(Sign::Colon),
{
    let h = precedence::mark(Sign::Colon);
    let n = precedence::id(ls[0]);
    lemma_cut(ts, i, h + n, labels_text(ls, 1));
    lemma_cut(ts, i, h, n);
    lemma_first(ts, i, h[0]);
}

/// What REMOVE says is read back.
pub proof fn lemma_read_remove(x: RemoveV, ts: Seq<TokenV>, i: int)
    requires
        x matches RemoveV::Label { labels, .. } ==> labels.len() > 0,
        placed(ts, i, remove_text(x)),
        closes(ts, i + remove_text(x).len()),
    ensures
        found(parser::remove_item(ts, i), x, i + remove_text(x).len()),
{
    match x {
        RemoveV::Property { variable, property } => {
            let v = precedence::id(variable);
            let d = precedence::mark(Sign::Dot);
            let n = precedence::id(property);
            lemma_cut(ts, i, v + d, n);
            lemma_cut(ts, i, v, d);
            lemma_first(ts, i, v[0]);
            lemma_first(ts, i + 1, d[0]);
            lemma_first(ts, i + 2, n[0]);
        },
        RemoveV::Label { variable, labels } => {
            let v = precedence::id(variable);
            let l = labels_text(labels, 0);
            lemma_cut(ts, i, v, l);
            lemma_first(ts, i, v[0]);
            lemma_labels_begin(labels, ts, i + 1);
            assert(labels.take(0) =~= seq![]);
            lemma_read_labels(labels, 0, seq![], ts, i + 1);
        },
    }
}

// ---------------------------------------------------------------------------
// Clauses
// ---------------------------------------------------------------------------

/// A clause with one pattern, item or expression, as it is written: the words
/// that it begins with, and what they say of it.
pub open spec fn clause_text(c: ClauseV) -> Seq<TokV> {
    match c {
        ClauseV::Match(parts, kind) => (match kind {
            MatchKind::Regular => precedence::word(Kw::Match),
            MatchKind::Optional => precedence::word(Kw::Optional) + precedence::word(Kw::Match),
            MatchKind::Mandatory => precedence::word(Kw::Mandatory) + precedence::word(Kw::Match),
        }) + pattern_text(parts[0].element),
        ClauseV::Create(parts) => precedence::word(Kw::Create) + pattern_text(parts[0].element),
        ClauseV::Where(e) => precedence::word(Kw::Where) + precedence::written(e),
        ClauseV::Unwind(e, a) => precedence::word(Kw::Unwind) + precedence::written(e) + (precedence::word(Kw::As) + precedence::id(a)),
        ClauseV::SetItems(items) => precedence::word(Kw::SetTo) + set_text(items[0]),
        ClauseV::Remove(items) => precedence::word(Kw::Remove) + remove_text(items[0]),
        ClauseV::Delete(detach, es) => (if detach {
            precedence::word(Kw::Detach) + precedence::word(Kw::Delete)
        } else {
            precedence::word(Kw::Delete)
        }) + precedence::written(es[0]),
        _ => seq![],
    }
}

/// A part that is named as its first node is, or not at all.
pub open spec fn plain_part(p: PartV) -> bool {
    pattern_writable(p.element) && p.variable == match p.element {
        PatternV::Node(n) => n.variable,
        PatternV::Chain { start, .. } => start.variable,
        _ => None,
    }
}

pub open spec fn clause_writable(c: ClauseV) -> bool {
    match c {
        ClauseV::Match(parts, _) => parts.len() == 1 && plain_part(parts[0]),
        ClauseV::Create(parts) => parts.len() == 1 && plain_part(parts[0]),
        ClauseV::Where(e) => precedence::writable(e),
        ClauseV::Unwind(e, _) => precedence::writable(e),
        ClauseV::SetItems(items) => items.len() == 1 && set_writable(items[0]),
        ClauseV::Remove(items) => items.len() == 1 && (items[0] matches RemoveV::Label {
            labels,
            ..
        } ==> labels.len() > 0),
        ClauseV::Delete(_, es) => es.len() == 1 && precedence::writable(es[0]),
        _ => false,
    }
}

/// A clause is read back as what it is: MATCH, OPTIONAL MATCH and MANDATORY
/// MATCH, CREATE, WHERE, UNWIND, SET, REMOVE, DELETE and DETACH DELETE.
pub proof fn lemma_read_clause(c: ClauseV, ts: Seq<TokenV>, i: int)
    requires
        clause_writable(c),
        placed(ts, i, clause_text(c)),
        ends_clause(ts, i + clause_text(c).len()),
    ensures
        found(parser::clause(ts, i), c, i + clause_text(c).len()),
{
    match c {
        ClauseV::Match(..) => {
            lemma_clause_match(c, ts, i);
        },
        ClauseV::Create(..) => {
            lemma_clause_create(c, ts, i);
        },
        ClauseV::Where(..) => {
            lemma_clause_where(c, ts, i);
        },
        ClauseV::Unwind(..) => {
            lemma_clause_unwind(c, ts, i);
        },
        ClauseV::SetItems(..) => {
            lemma_clause_set(c, ts, i);
        },
        ClauseV::Remove(..) => {
            lemma_clause_remove(c, ts, i);
        },
        ClauseV::Delete(..) => {
            lemma_clause_delete(c, ts, i);
        },
        _ => {},
    }
}

/// Nothing at a place goes on with a clause.
pub open spec fn ends_clause(ts: Seq<TokenV>, j: int) -> bool {
    closes(ts, j) && grammar::sign(ts, j) != Some(Sign::Comma)
}

#[verifier::spinoff_prover]
#[verifier::rlimit(40)]
proof fn lemma_clause_match(c: ClauseV, ts: Seq<TokenV>, i: int)
    requires
        c is Match,
        clause_writable(c),
        placed(ts, i, clause_text(c)),
        ends_clause(ts, i + clause_text(c).len()),
    ensures
        found(parser::clause(ts, i), c, i + clause_text(c).len()),
{
    let j = i + clause_text(c).len();
    if let ClauseV::Match(parts, kind) = c {
        let p = parts[0].element;
        let h = match kind {
            MatchKind::Regular => precedence::word(Kw::Match),
            MatchKind::Optional => precedence::word(Kw::Optional) + precedence::word(Kw::Match),
            MatchKind::Mandatory => precedence::word(Kw::Mandatory) + precedence::word(Kw::Match),
        };
        lemma_cut(ts, i, h, pattern_text(p));
        match kind {
            MatchKind::Regular => {
                lemma_first(ts, i, precedence::word(Kw::Match)[0]);
            },
            MatchKind::Optional => {
                lemma_cut(ts, i, precedence::word(Kw::Optional), precedence::word(Kw::Match));
                lemma_first(ts, i, precedence::word(Kw::Optional)[0]);
                lemma_first(ts, i + 1, precedence::word(Kw::Match)[0]);
            },
            MatchKind::Mandatory => {
                lemma_cut(ts, i, precedence::word(Kw::Mandatory), precedence::word(Kw::Match));
                lemma_first(ts, i, precedence::word(Kw::Mandatory)[0]);
                lemma_first(ts, i + 1, precedence::word(Kw::Match)[0]);
            },
        }
        lemma_read_part(parts[0], ts, i + h.len());
        assert(seq![parts[0]] =~= parts);
    }
}

#[verifier::spinoff_prover]
#[verifier::rlimit(40)]
proof fn lemma_clause_create(c: ClauseV, ts: Seq<TokenV>, i: int)
    requires
        c is Create,
        clause_writable(c),
        placed(ts, i, clause_text(c)),
        ends_clause(ts, i + clause_text(c).len()),
    ensures
        found(parser::clause(ts, i), c, i + clause_text(c).len()),
{
    let j = i + clause_text(c).len();
    if let ClauseV::Create(parts) = c {
        let p = parts[0].element;
        lemma_cut(ts, i, precedence::word(Kw::Create), pattern_text(p));
        lemma_first(ts, i, precedence::word(Kw::Create)[0]);
        lemma_read_part(parts[0], ts, i + 1);
        assert(seq![parts[0]] =~= parts);
    }
}

proof fn lemma_clause_where(c: ClauseV, ts: Seq<TokenV>, i: int)
    requires
        c is Where,
        clause_writable(c),
        placed(ts, i, clause_text(c)),
        ends_clause(ts, i + clause_text(c).len()),
    ensures
        found(parser::clause(ts, i), c, i + clause_text(c).len()),
{
    let j = i + clause_text(c).len();
    if let ClauseV::Where(e) = c {
        lemma_cut(ts, i, precedence::word(Kw::Where), precedence::written(e));
        lemma_first(ts, i, precedence::word(Kw::Where)[0]);
        lemma_expr(e, ts, i + 1);
    }
}

#[verifier::spinoff_prover]
#[verifier::rlimit(40)]
proof fn lemma_clause_unwind(c: ClauseV, ts: Seq<TokenV>, i: int)
    requires
        c is Unwind,
        clause_writable(c),
        placed(ts, i, clause_text(c)),
        ends_clause(ts, i + clause_text(c).len()),
    ensures
        found(parser::clause(ts, i), c, i + clause_text(c).len()),
{
    let j = i + clause_text(c).len();
    if let ClauseV::Unwind(e, a) = c {
        let w = precedence::word(Kw::Unwind);
        let t = precedence::written(e);
        let k = i + 1 + t.len();
        lemma_cut(ts, i, w + t, precedence::word(Kw::As) + precedence::id(a));
        lemma_cut(ts, i, w, t);
        lemma_cut(ts, k, precedence::word(Kw::As), precedence::id(a));
        lemma_first(ts, i, w[0]);
        lemma_first(ts, k, precedence::word(Kw::As)[0]);
        lemma_first(ts, k + 1, precedence::id(a)[0]);
        lemma_expr(e, ts, i + 1);
    }
}

proof fn lemma_clause_set(c: ClauseV, ts: Seq<TokenV>, i: int)
    requires
        c is SetItems,
        clause_writable(c),
        placed(ts, i, clause_text(c)),
        ends_clause(ts, i + clause_text(c).len()),
    ensures
        found(parser::clause(ts, i), c, i + clause_text(c).len()),
{
    let j = i + clause_text(c).len();
    if let ClauseV::SetItems(items) = c {
        lemma_cut(ts, i, precedence::word(Kw::SetTo), set_text(items[0]));
        lemma_first(ts, i, precedence::word(Kw::SetTo)[0]);
        lemma_read_set(items[0], ts, i + 1);
        let none: Seq<SetV> = seq![];
        assert(none.push(items[0]) =~= items);
        assert(found(parser::set_items(ts, i + 1, none), items, j));
    }
}

proof fn lemma_clause_remove(c: ClauseV, ts: Seq<TokenV>, i: int)
    requires
        c is Remove,
        clause_writable(c),
        placed(ts, i, clause_text(c)),
        ends_clause(ts, i + clause_text(c).len()),
    ensures
        found(parser::clause(ts, i), c, i + clause_text(c).len()),
{
    let j = i + clause_text(c).len();
    if let ClauseV::Remove(items) = c {
        lemma_cut(ts, i, precedence::word(Kw::Remove), remove_text(items[0]));
        lemma_first(ts, i, precedence::word(Kw::Remove)[0]);
        lemma_read_remove(items[0], ts, i + 1);
        let none: Seq<RemoveV> = seq![];
        assert(none.push(items[0]) =~= items);
        assert(found(parser::remove_items(ts, i + 1, none), items, j));
    }
}

#[verifier::spinoff_prover]
#[verifier::rlimit(40)]
proof fn lemma_clause_delete(c: ClauseV, ts: Seq<TokenV>, i: int)
    requires
        c is Delete,
        clause_writable(c),
        placed(ts, i, clause_text(c)),
        ends_clause(ts, i + clause_text(c).len()),
    ensures
        found(parser::clause(ts, i), c, i + clause_text(c).len()),
{
    let j = i + clause_text(c).len();
    if let ClauseV::Delete(detach, es) = c {
        let h = if detach {
            precedence::word(Kw::Detach) + precedence::word(Kw::Delete)
        } else {
            precedence::word(Kw::Delete)
        };
        lemma_cut(ts, i, h, precedence::written(es[0]));
        if detach {
            lemma_cut(ts, i, precedence::word(Kw::Detach), precedence::word(Kw::Delete));
            lemma_first(ts, i, precedence::word(Kw::Detach)[0]);
            lemma_first(ts, i + 1, precedence::word(Kw::Delete)[0]);
        } else {
            lemma_first(ts, i, precedence::word(Kw::Delete)[0]);
        }
        let k = i + h.len();
        lemma_expr(es[0], ts, k);
        let none: Seq<ExprV> = seq![];
        assert(none.push(es[0]) =~= es);
        assert(found(grammar::exprs(ts, k, none), es, j));
    }
}

proof fn lemma_read_part(p: PartV, ts: Seq<TokenV>, i: int)
    requires
        plain_part(p),
        placed(ts, i, pattern_text(p.element)),
        closes(ts, i + pattern_text(p.element).len()),
        grammar::sign(ts, i + pattern_text(p.element).len()) != Some(Sign::Comma),
    ensures
        found(
            parser::parts(ts, i, Seq::<PartV>::empty()),
            seq![p],
            i + pattern_text(p.element).len(),
        ),
{
    let j = i + pattern_text(p.element).len();
    lemma_read_pattern(p.element, ts, i);
    lemma_pattern_begin(p.element, ts, i);
    assert(found(parser::part(ts, i), p, j));
    assert(Seq::<PartV>::empty().push(p) =~= seq![p]);
}

proof fn lemma_pattern_begin(p: PatternV, ts: Seq<TokenV>, i: int)
    requires
        pattern_writable(p),
        placed(ts, i, pattern_text(p)),
    ensures
        grammar::variable(ts, i) is None || grammar::sign(ts, i + 1) == Some(Sign::LParen),
{
    match p {
        PatternV::Node(np) => {
            lemma_read_node(np, ts, i);
        },
        PatternV::Chain { start, elements } => {
            lemma_cut(ts, i, node_text(start), chain_text(elements, 0));
            lemma_read_node(start, ts, i);
        },
        PatternV::ShortestPath { start, relationship, end } => {
            lemma_read_ends(Kw::ShortestPath, start, relationship, end, ts, i);
        },
        PatternV::AllShortestPaths { start, relationship, end } => {
            lemma_read_ends(Kw::AllShortestPaths, start, relationship, end, ts, i);
        },
    }
}

// ---------------------------------------------------------------------------
// RETURN and WITH
// ---------------------------------------------------------------------------

pub open spec fn behind_text(w: Kw, o: Option<ExprV>) -> Seq<TokV> {
    match o {
        Some(e) => precedence::word(w) + precedence::written(e),
        None => seq![],
    }
}

pub open spec fn order_text(o: Option<Seq<SortV>>) -> Seq<TokV> {
    match o {
        Some(s) => precedence::word(Kw::Order) + precedence::word(Kw::By) + sort_text(s[0]),
        None => seq![],
    }
}

pub open spec fn distinct_text(p: ProjV) -> Seq<TokV> {
    if p.distinct {
        precedence::word(Kw::Distinct)
    } else {
        seq![]
    }
}

pub open spec fn projection_text(p: ProjV) -> Seq<TokV> {
    distinct_text(p) + item_text(p.items[0]) + order_text(p.order_by) + behind_text(Kw::Skip, p.skip)
        + behind_text(Kw::Limit, p.limit)
}

/// A projection of one item, ordered by at most one key.
pub open spec fn projection_writable(p: ProjV) -> bool {
    &&& p.items.len() == 1 && precedence::writable(p.items[0].expression)
    &&& p.order_by matches Some(s) ==> s.len() == 1 && precedence::writable(s[0].expression)
    &&& p.skip matches Some(e) ==> precedence::writable(e)
    &&& p.limit matches Some(e) ==> precedence::writable(e)
}

/// Nothing at a place goes on with a projection.
pub open spec fn ends_projection(ts: Seq<TokenV>, j: int) -> bool {
    &&& closes(ts, j)
    &&& grammar::sign(ts, j) != Some(Sign::Comma)
    &&& grammar::kw(ts, j) != Kw::As
    &&& grammar::kw(ts, j) != Kw::Order
    &&& grammar::kw(ts, j) != Kw::Skip
    &&& grammar::kw(ts, j) != Kw::Limit
}

proof fn lemma_read_behind(w: Kw, o: Option<ExprV>, ts: Seq<TokenV>, i: int)
    requires
        w == Kw::Skip || w == Kw::Limit || w == Kw::Where,
        o matches Some(e) ==> precedence::writable(e),
        placed(ts, i, behind_text(w, o)),
        closes(ts, i + behind_text(w, o).len()),
        o is None ==> grammar::kw(ts, i) != w,
    ensures
        found(parser::behind(ts, i, w), o, i + behind_text(w, o).len()),
        o is Some ==> grammar::kw(ts, i) == w && i < ts.len(),
{
    if let Some(e) = o {
        lemma_cut(ts, i, precedence::word(w), precedence::written(e));
        lemma_first(ts, i, precedence::word(w)[0]);
        lemma_expr(e, ts, i + 1);
    }
}

/// What may follow a part of a projection.
spec fn goes_on(ts: Seq<TokenV>, j: int) -> bool {
    closes(ts, j) && grammar::sign(ts, j) != Some(Sign::Comma) && grammar::kw(ts, j) != Kw::As
}

proof fn lemma_read_counts(p: ProjV, ts: Seq<TokenV>, p3: int, p4: int, p5: int)
    requires
        projection_writable(p),
        placed(ts, p3, behind_text(Kw::Skip, p.skip)),
        p4 == p3 + behind_text(Kw::Skip, p.skip).len(),
        placed(ts, p4, behind_text(Kw::Limit, p.limit)),
        p5 == p4 + behind_text(Kw::Limit, p.limit).len(),
        ends_projection(ts, p5),
    ensures
        found(parser::behind(ts, p3, Kw::Skip), p.skip, p4),
        found(parser::behind(ts, p4, Kw::Limit), p.limit, p5),
        goes_on(ts, p3),
        grammar::kw(ts, p3) != Kw::Order,
{
    if p.limit is None {
        assert(behind_text(Kw::Limit, p.limit).len() == 0);
    }
    lemma_read_behind(Kw::Limit, p.limit, ts, p4);
    if p.skip is None {
        assert(behind_text(Kw::Skip, p.skip).len() == 0);
    }
    lemma_read_behind(Kw::Skip, p.skip, ts, p3);
}

proof fn lemma_read_order(o: Option<Seq<SortV>>, ts: Seq<TokenV>, p2: int, p3: int)
    requires
        o matches Some(s) ==> s.len() == 1 && precedence::writable(s[0].expression),
        placed(ts, p2, order_text(o)),
        p3 == p2 + order_text(o).len(),
        goes_on(ts, p3),
        grammar::kw(ts, p3) != Kw::Order,
    ensures
        found(parser::order(ts, p2), o, p3),
        goes_on(ts, p2),
{
    if let Some(sorts) = o {
        let a = precedence::word(Kw::Order);
        let b = precedence::word(Kw::By);
        lemma_cut(ts, p2, a + b, sort_text(sorts[0]));
        lemma_cut(ts, p2, a, b);
        lemma_first(ts, p2, a[0]);
        lemma_first(ts, p2 + 1, b[0]);
        lemma_read_sort(sorts[0], ts, p2 + 2);
    } else {
        assert(order_text(o).len() == 0);
    }
    lemma_order_rule(o, ts, p2, p3);
}

/// A projection is read back: DISTINCT or not, the item and its name, the order,
/// what is skipped and how many rows are kept.
#[verifier::spinoff_prover]
#[verifier::rlimit(40)]
pub proof fn lemma_read_projection(p: ProjV, ts: Seq<TokenV>, i: int)
    requires
        projection_writable(p),
        placed(ts, i, projection_text(p)),
        ends_projection(ts, i + projection_text(p).len()),
    ensures
        found(parser::projection(ts, i), p, i + projection_text(p).len()),
{
    let d = distinct_text(p);
    let t = item_text(p.items[0]);
    let o = order_text(p.order_by);
    let s = behind_text(Kw::Skip, p.skip);
    let l = behind_text(Kw::Limit, p.limit);
    let p1 = i + d.len();
    let p2 = p1 + t.len();
    let p3 = p2 + o.len();
    let p4 = p3 + s.len();
    let p5 = p4 + l.len();
    lemma_cut_five(ts, i, d, t, o, s, l);
    lemma_read_counts(p, ts, p3, p4, p5);
    lemma_read_order(p.order_by, ts, p2, p3);
    lemma_read_item(p.items[0], ts, p1);
    if p.distinct {
        lemma_first(ts, i, d[0]);
    }
    lemma_items_rule(p.items, ts, p1, p2);
    lemma_projection_rule(p, ts, i, p1, p2, p3, p4, p5);
}

proof fn lemma_items_rule(items: Seq<ItemV>, ts: Seq<TokenV>, i: int, j: int)
    requires
        items.len() == 1,
        0 <= i < j <= ts.len(),
        found(parser::item(ts, i), items[0], j),
        grammar::sign(ts, j) != Some(Sign::Comma),
        grammar::sign(ts, i) != Some(Sign::Star),
    ensures
        found(parser::items(ts, i), items, j),
{
    let none: Seq<ItemV> = seq![];
    assert(none.push(items[0]) =~= items);
}

proof fn lemma_order_rule(o: Option<Seq<SortV>>, ts: Seq<TokenV>, i: int, j: int)
    requires
        match o {
            Some(sorts) => sorts.len() == 1 && grammar::kw(ts, i) == Kw::Order && grammar::kw(
                ts,
                i + 1,
            ) == Kw::By && i + 2 < j <= ts.len() && found(parser::sort(ts, i + 2), sorts[0], j)
                && grammar::sign(ts, j) != Some(Sign::Comma),
            None => i == j && grammar::kw(ts, i) != Kw::Order,
        },
    ensures
        found(parser::order(ts, i), o, j),
{
    if let Some(sorts) = o {
        let none: Seq<SortV> = seq![];
        assert(none.push(sorts[0]) =~= sorts);
        assert(found(parser::sorts(ts, i + 2, none), sorts, j));
    }
}

proof fn lemma_projection_rule(
    p: ProjV,
    ts: Seq<TokenV>,
    i: int,
    p1: int,
    p2: int,
    p3: int,
    p4: int,
    p5: int,
)
    requires
        p1 == if p.distinct {
            i + 1
        } else {
            i
        },
        p.distinct <==> grammar::kw(ts, i) == Kw::Distinct,
        found(parser::items(ts, p1), p.items, p2),
        found(parser::order(ts, p2), p.order_by, p3),
        found(parser::behind(ts, p3, Kw::Skip), p.skip, p4),
        found(parser::behind(ts, p4, Kw::Limit), p.limit, p5),
    ensures
        found(parser::projection(ts, i), p, p5),
{
}

/// RETURN and WITH are read back, and WHERE behind WITH.
pub proof fn lemma_read_return(p: ProjV, o: Option<ExprV>, ts: Seq<TokenV>, i: int)
    requires
        projection_writable(p),
        o matches Some(e) ==> precedence::writable(e),
    ensures
        placed(ts, i, precedence::word(Kw::Return) + projection_text(p)) && ends_projection(
            ts,
            i + 1 + projection_text(p).len(),
        ) ==> found(parser::clause(ts, i), ClauseV::Return(p), i + 1 + projection_text(p).len()),
        placed(ts, i, precedence::word(Kw::With) + projection_text(p) + behind_text(Kw::Where, o))
            && ends_projection(
            ts,
            i + 1 + projection_text(p).len() + behind_text(Kw::Where, o).len(),
        ) && grammar::kw(ts, i + 1 + projection_text(p).len() + behind_text(Kw::Where, o).len())
            != Kw::Where ==> found(
            parser::clause(ts, i),
            ClauseV::With(p, o),
            i + 1 + projection_text(p).len() + behind_text(Kw::Where, o).len(),
        ),
{
    let t = projection_text(p);
    let b = behind_text(Kw::Where, o);
    if placed(ts, i, precedence::word(Kw::Return) + t) && ends_projection(ts, i + 1 + t.len()) {
        lemma_cut(ts, i, precedence::word(Kw::Return), t);
        lemma_first(ts, i, precedence::word(Kw::Return)[0]);
        lemma_read_projection(p, ts, i + 1);
    }
    let j = i + 1 + t.len() + b.len();
    if placed(ts, i, precedence::word(Kw::With) + t + b) && ends_projection(ts, j) && grammar::kw(ts, j)
        != Kw::Where {
        lemma_cut(ts, i, precedence::word(Kw::With) + t, b);
        lemma_cut(ts, i, precedence::word(Kw::With), t);
        lemma_first(ts, i, precedence::word(Kw::With)[0]);
        lemma_read_behind(Kw::Where, o, ts, i + 1 + t.len());
        lemma_read_projection(p, ts, i + 1);
    }
}

} // verus!
