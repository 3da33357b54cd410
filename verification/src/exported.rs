//! The tokens of the query that a graph is exported as.
use crate::arrange;
use crate::assoc;
use crate::error::ErrV;
use crate::functions;
use crate::graph;
use crate::lexer::{self, Kw, Sign, TokV};
use crate::literals;
use crate::number;
use crate::outside::AnswersV;
use crate::relex;
use crate::text;
use crate::value::{EdgeV, NodeV, PropV, PropsV, ValV};
use vstd::prelude::*;

verus! {

// ---------------------------------------------------------------------------
// What can be read back
// ---------------------------------------------------------------------------

/// The text of a number without the sign in front of it.
pub open spec fn unsigned_text(t: Seq<char>) -> Seq<char> {
    if t.len() > 0 && t[0] == '-' {
        t.skip(1)
    } else {
        t
    }
}

/// A floating-point number is written as a decimal numeral, and reading that
/// numeral gives the number.
pub open spec fn float_kept(ans: AnswersV, b: u64) -> bool {
    match graph::exported_value(ans, PropV::Float(b)) {
        Err(_) => false,
        Ok(t) => relex::is_decimal(unsigned_text(t)) && (match functions::parsed_number(
            ans,
            unsigned_text(t),
        ) {
            Ok(ValV::Float(x)) => b == (if t[0] == '-' {
                number::float_negated(x)
            } else {
                x
            }),
            _ => false,
        }),
    }
}

/// A property whose text gives it back. The least integer has none: its
/// magnitude is no integer.
pub open spec fn writable(ans: AnswersV, v: PropV) -> bool {
    match v {
        PropV::Int(i) => i != i64::MIN,
        PropV::Float(b) => float_kept(ans, b),
        _ => true,
    }
}

/// Properties whose keys are words and whose values can be read back.
pub open spec fn writable_props(ans: AnswersV, props: PropsV) -> bool {
    forall|i: int|
        0 <= i < props.len() ==> relex::is_word((#[trigger] props[i]).0) && writable(
            ans,
            props[i].1,
        )
}

/// A node whose labels are words and whose properties can be read back.
pub open spec fn writable_node(ans: AnswersV, n: NodeV) -> bool {
    &&& forall|i: int| 0 <= i < n.labels.len() ==> relex::is_word(#[trigger] n.labels[i])
    &&& writable_props(ans, n.properties)
}

/// A relationship whose type is a word and whose properties can be read back.
pub open spec fn writable_edge(ans: AnswersV, e: EdgeV) -> bool {
    relex::is_word(e.label) && writable_props(ans, e.properties)
}

// ---------------------------------------------------------------------------
// Values
// ---------------------------------------------------------------------------

/// The tokens of a number as it is written.
pub open spec fn float_tokens(t: Seq<char>) -> Seq<TokV> {
    if t.len() > 0 && t[0] == '-' {
        seq![TokV::Sign(Sign::Minus), TokV::Float(t.skip(1))]
    } else {
        seq![TokV::Float(t)]
    }
}

/// The text of a property in a query.
pub open spec fn value_text(ans: AnswersV, v: PropV) -> Seq<char> {
    graph::exported_value(ans, v)->Ok_0
}

/// The tokens of a property in a query.
pub open spec fn value_tokens(ans: AnswersV, v: PropV) -> Seq<TokV> {
    match v {
        PropV::Str(s) => seq![TokV::Text(literals::quoted(s))],
        PropV::Int(i) => if i < 0 {
            seq![TokV::Sign(Sign::Minus), TokV::Integer(text::nat_text((-i) as nat))]
        } else {
            seq![TokV::Integer(text::nat_text(i as nat))]
        },
        PropV::Float(b) => float_tokens(value_text(ans, v)),
        PropV::Bool(true) => seq![TokV::Word("true"@, Kw::True)],
        PropV::Bool(false) => seq![TokV::Word("false"@, Kw::False)],
    }
}

proof fn lemma_bool_words()
    ensures
        relex::is_word("true"@),
        relex::is_word("false"@),
        relex::word_token("true"@) == TokV::Word("true"@, Kw::True),
        relex::word_token("false"@) == TokV::Word("false"@, Kw::False),
{
    reveal_strlit("true");
    reveal_strlit("false");
    reveal_strlit("TRUE");
    reveal_strlit("FALSE");
    lexer::lemma_keyword_literals();
    assert(text::upper_text("true"@) =~= "TRUE"@);
    assert(text::upper_text("false"@) =~= "FALSE"@);
}

proof fn lemma_signed(t: Seq<char>, x: TokV)
    requires
        t.len() > 0,
        t[0] == '-',
        relex::bounded(t.skip(1), seq![x]),
    ensures
        relex::bounded(t, seq![TokV::Sign(Sign::Minus), x]),
{
    relex::lemma_free_sign('-');
    relex::lemma_free_bounded_join(
        seq!['-'],
        seq![TokV::Sign(Sign::Minus)],
        t.skip(1),
        seq![x],
    );
    assert(seq!['-'] + t.skip(1) =~= t);
    assert(seq![TokV::Sign(Sign::Minus)] + seq![x] =~= seq![TokV::Sign(Sign::Minus), x]);
}

proof fn lemma_value_reads(ans: AnswersV, v: PropV)
    requires
        writable(ans, v),
    ensures
        graph::exported_value(ans, v) == Ok::<Seq<char>, ErrV>(value_text(ans, v)),
        relex::bounded(value_text(ans, v), value_tokens(ans, v)),
{
    let t = value_text(ans, v);
    match v {
        PropV::Str(s) => {
            relex::lemma_free_quoted(s);
            relex::lemma_free_bounded(t, value_tokens(ans, v));
        },
        PropV::Int(i) => {
            if i < 0 {
                let d = text::nat_text((-i) as nat);
                relex::lemma_nat_digits((-i) as nat);
                relex::lemma_bounded_digits(d);
                assert(t.skip(1) =~= d);
                lemma_signed(t, TokV::Integer(d));
            } else {
                relex::lemma_nat_digits(i as nat);
                relex::lemma_bounded_digits(t);
            }
        },
        PropV::Float(b) => {
            relex::lemma_bounded_decimal(unsigned_text(t));
            if t.len() > 0 && t[0] == '-' {
                lemma_signed(t, TokV::Float(t.skip(1)));
            }
        },
        PropV::Bool(b) => {
            lemma_bool_words();
            relex::lemma_bounded_word(t);
        },
    }
}

// ---------------------------------------------------------------------------
// Properties
// ---------------------------------------------------------------------------

/// The properties in the order in which they are written.
pub open spec fn pairs(props: PropsV) -> PropsV {
    let ks = graph::sorted_keys(props);
    Seq::new(ks.len(), |i: int| (ks[i], assoc::lookup(props, ks[i]).unwrap()))
}

/// What is written is what is there: each key with its value.
pub proof fn lemma_pairs(props: PropsV)
    ensures
        pairs(props).len() == props.len(),
        forall|i: int|
            0 <= i < props.len() ==> assoc::lookup(props, (#[trigger] pairs(props)[i]).0) == Some(
                pairs(props)[i].1,
            ) && exists|j: int| 0 <= j < props.len() && props[j] == pairs(props)[i],
        forall|k: Seq<char>|
            (#[trigger] assoc::lookup(props, k)) is Some ==> exists|i: int|
                0 <= i < pairs(props).len() && (#[trigger] pairs(props)[i]).0 == k,
{
    broadcast use vstd::seq_lib::group_to_multiset_ensures;

    let keys = Seq::new(props.len(), |i: int| props[i].0);
    let ks = graph::sorted_keys(props);
    arrange::lemma_arranged_same_items(keys, arrange::text_after());
    assert forall|i: int| 0 <= i < props.len() implies assoc::lookup(
        props,
        (#[trigger] pairs(props)[i]).0,
    ) == Some(pairs(props)[i].1) && exists|j: int|
        0 <= j < props.len() && props[j] == pairs(props)[i] by {
        assert(ks.contains(ks[i]));
        assert(ks.to_multiset().count(ks[i]) > 0);
        assert(keys.contains(ks[i]));
        let j = choose|j: int| 0 <= j < keys.len() && keys[j] == ks[i];
        assert(props[j].0 == ks[i]);
        assoc::lemma_position(props, ks[i], 0);
        let p = assoc::position(props, ks[i])->0;
        assert(props[p] == pairs(props)[i]);
    }
    assert forall|k: Seq<char>| (#[trigger] assoc::lookup(props, k)) is Some implies exists|i: int|
        0 <= i < pairs(props).len() && (#[trigger] pairs(props)[i]).0 == k by {
        assoc::lemma_position(props, k, 0);
        let p = assoc::position(props, k)->0;
        assert(keys[p] == k);
        assert(keys.contains(k));
        assert(keys.to_multiset().count(k) > 0);
        assert(ks.contains(k));
        let i = choose|i: int| 0 <= i < ks.len() && ks[i] == k;
        assert(pairs(props)[i].0 == k);
    }
}

/// The texts of properties.
pub open spec fn entry_texts(ans: AnswersV, ps: PropsV) -> Seq<Seq<char>> {
    Seq::new(ps.len(), |i: int| ps[i].0 + ": "@ + value_text(ans, ps[i].1))
}

/// The tokens of a property.
pub open spec fn entry_tokens(ans: AnswersV, p: (Seq<char>, PropV)) -> Seq<TokV> {
    seq![relex::word_token(p.0), TokV::Sign(Sign::Colon)] + value_tokens(ans, p.1)
}

pub open spec fn entries_tokens(ans: AnswersV, ps: PropsV) -> Seq<Seq<TokV>> {
    Seq::new(ps.len(), |i: int| entry_tokens(ans, ps[i]))
}

/// The tokens of all properties.
pub open spec fn props_tokens(ans: AnswersV, ps: PropsV) -> Seq<TokV> {
    if ps.len() == 0 {
        seq![]
    } else {
        seq![TokV::Sign(Sign::LBrace)] + (relex::strung(
            entries_tokens(ans, ps),
            seq![TokV::Sign(Sign::Comma)],
        ) + seq![TokV::Sign(Sign::RBrace)])
    }
}

/// The text of all properties.
pub open spec fn props_text(ans: AnswersV, props: PropsV) -> Seq<char> {
    graph::exported_props(ans, props)->Ok_0
}

proof fn lemma_entry_reads(ans: AnswersV, p: (Seq<char>, PropV))
    requires
        relex::is_word(p.0),
        writable(ans, p.1),
    ensures
        relex::bounded(p.0 + ": "@ + value_text(ans, p.1), entry_tokens(ans, p)),
{
    reveal_strlit(": ");
    let colon = seq![TokV::Sign(Sign::Colon)];
    let w = seq![relex::word_token(p.0)];
    relex::lemma_bounded_word(p.0);
    relex::lemma_free_sign(':');
    relex::lemma_free_blank(' ');
    relex::lemma_free_free(seq![':'], colon, seq![' '], seq![]);
    assert(seq![':'] + seq![' '] =~= ": "@);
    assert(colon + Seq::<TokV>::empty() =~= colon);
    relex::lemma_bounded_free(p.0, w, ": "@, colon);
    lemma_value_reads(ans, p.1);
    relex::lemma_free_bounded_join(
        p.0 + ": "@,
        w + colon,
        value_text(ans, p.1),
        value_tokens(ans, p.1),
    );
    assert(w + colon + value_tokens(ans, p.1) =~= entry_tokens(ans, p));
}

proof fn lemma_entries_text(ans: AnswersV, props: PropsV, n: int)
    requires
        writable_props(ans, props),
        0 <= n <= props.len(),
    ensures
        graph::exported_entries(ans, props, graph::sorted_keys(props), n) == Ok::<
            Seq<Seq<char>>,
            ErrV,
        >(entry_texts(ans, pairs(props)).take(n)),
    decreases n,
{
    lemma_pairs(props);
    let ts = entry_texts(ans, pairs(props));
    if n > 0 {
        lemma_entries_text(ans, props, n - 1);
        let p = pairs(props)[n - 1];
        assert(exists|j: int| 0 <= j < props.len() && props[j] == p);
        lemma_value_reads(ans, p.1);
        assert(ts.take(n) =~= ts.take(n - 1).push(ts[n - 1]));
    } else {
        assert(ts.take(0) =~= seq![]);
    }
}

proof fn lemma_props_read(ans: AnswersV, props: PropsV)
    requires
        writable_props(ans, props),
    ensures
        graph::exported_props(ans, props) == Ok::<Seq<char>, ErrV>(props_text(ans, props)),
        relex::free(props_text(ans, props), props_tokens(ans, pairs(props))),
        props_text(ans, props).len() > 0 ==> relex::ends_word(props_text(ans, props)[0]),
{
    lemma_pairs(props);
    if props.len() == 0 {
        relex::lemma_free_nothing();
    } else {
        let ps = pairs(props);
        let es = entry_texts(ans, ps);
        let ks = entries_tokens(ans, ps);
        let comma = seq![TokV::Sign(Sign::Comma)];
        let open = seq![TokV::Sign(Sign::LBrace)];
        let close = seq![TokV::Sign(Sign::RBrace)];
        lemma_entries_text(ans, props, props.len() as int);
        assert(es.take(props.len() as int) =~= es);
        assert forall|i: int| 0 <= i < es.len() implies relex::bounded(
            #[trigger] es[i],
            ks[i],
        ) by {
            let p = ps[i];
            assert(exists|j: int| 0 <= j < props.len() && props[j] == p);
            lemma_entry_reads(ans, p);
        }
        reveal_strlit(", ");
        reveal_strlit(" {");
        reveal_strlit("}");
        relex::lemma_free_sign(',');
        relex::lemma_free_blank(' ');
        relex::lemma_free_free(seq![','], comma, seq![' '], seq![]);
        assert(seq![','] + seq![' '] =~= ", "@);
        assert(comma + Seq::<TokV>::empty() =~= comma);
        relex::lemma_bounded_strung(es, ks, ", "@, comma);
        relex::lemma_strung(es, ", "@);
        relex::lemma_free_sign('{');
        relex::lemma_free_free(seq![' '], seq![], seq!['{'], open);
        assert(seq![' '] + seq!['{'] =~= " {"@);
        assert(Seq::<TokV>::empty() + open =~= open);
        relex::lemma_free_sign('}');
        assert(seq!['}'] =~= "}"@);
        let body = relex::strung(es, ", "@);
        let inner = relex::strung(ks, comma);
        relex::lemma_bounded_free(body, inner, "}"@, close);
        relex::lemma_free_free(" {"@, open, body + "}"@, inner + close);
        assert(" {"@ + (body + "}"@) =~= props_text(ans, props));
        assert(props_text(ans, props)[0] == ' ');
    }
}

// ---------------------------------------------------------------------------
// Nodes and relationships
// ---------------------------------------------------------------------------

/// A part of the query: a node, or a relationship between two nodes.
pub enum PieceV {
    Node(NodeV),
    Edge(EdgeV),
}

pub open spec fn writable_piece(ans: AnswersV, x: PieceV) -> bool {
    match x {
        PieceV::Node(n) => writable_node(ans, n),
        PieceV::Edge(e) => writable_edge(ans, e),
    }
}

/// How a part is written.
pub open spec fn exported_piece(ans: AnswersV, x: PieceV) -> Result<Seq<char>, ErrV> {
    match x {
        PieceV::Node(n) => graph::exported_node(ans, n),
        PieceV::Edge(e) => graph::exported_edge(ans, e),
    }
}

pub open spec fn piece_text(ans: AnswersV, x: PieceV) -> Seq<char> {
    exported_piece(ans, x)->Ok_0
}

pub open spec fn words(ls: Seq<Seq<char>>) -> Seq<Seq<TokV>> {
    Seq::new(ls.len(), |i: int| seq![relex::word_token(ls[i])])
}

/// The tokens of labels.
pub open spec fn labels_tokens(ls: Seq<Seq<char>>) -> Seq<TokV> {
    if ls.len() == 0 {
        seq![]
    } else {
        seq![TokV::Sign(Sign::Colon)] + relex::strung(words(ls), seq![TokV::Sign(Sign::Colon)])
    }
}

/// The token of the variable of a node.
pub open spec fn variable_token(id: u64) -> TokV {
    TokV::Word(graph::exported_variable(id), Kw::Other)
}

pub open spec fn node_tokens(ans: AnswersV, n: NodeV) -> Seq<TokV> {
    seq![TokV::Sign(Sign::LParen), variable_token(n.id)] + (labels_tokens(n.labels) + (props_tokens(
        ans,
        pairs(n.properties),
    ) + seq![TokV::Sign(Sign::RParen)]))
}

/// The tokens of a node that is only named.
pub open spec fn named_tokens(id: u64) -> Seq<TokV> {
    seq![TokV::Sign(Sign::LParen), variable_token(id), TokV::Sign(Sign::RParen)]
}

pub open spec fn edge_tokens(ans: AnswersV, e: EdgeV) -> Seq<TokV> {
    named_tokens(e.src) + (seq![
        TokV::Sign(Sign::Minus),
        TokV::Sign(Sign::LBrack),
        TokV::Sign(Sign::Colon),
        relex::word_token(e.label),
    ] + (props_tokens(ans, pairs(e.properties)) + (seq![
        TokV::Sign(Sign::RBrack),
        TokV::Sign(Sign::Minus),
        TokV::Sign(Sign::Gt),
    ] + named_tokens(e.dst))))
}

pub open spec fn piece_tokens(ans: AnswersV, x: PieceV) -> Seq<TokV> {
    match x {
        PieceV::Node(n) => node_tokens(ans, n),
        PieceV::Edge(e) => edge_tokens(ans, e),
    }
}

proof fn lemma_variable_reads(id: u64)
    ensures
        relex::bounded(graph::exported_variable(id), seq![variable_token(id)]),
{
    let v = graph::exported_variable(id);
    let d = text::nat_text(id as nat);
    reveal_strlit("_");
    relex::lemma_nat_digits(id as nat);
    assert forall|k: int| 0 <= k < v.len() implies lexer::in_class(
        #[trigger] v[k],
        lexer::CharClass::WordPart,
    ) && (v[k] as u32) < 128 by {
        if k > 0 {
            assert(v[k] == d[k - 1]);
            assert('0' <= d[k - 1] <= '9');
        }
    }
    assert(text::is_ascii_text(v));
    assert(text::upper_text(v)[0] == '_');
    lexer::lemma_keyword_underscore(text::upper_text(v));
    relex::lemma_bounded_word(v);
}

proof fn lemma_labels_read(ls: Seq<Seq<char>>)
    requires
        ls.len() > 0,
        forall|i: int| 0 <= i < ls.len() ==> relex::is_word(#[trigger] ls[i]),
    ensures
        relex::bounded(":"@ + text::joined(ls, ":"@), labels_tokens(ls)),
{
    reveal_strlit(":");
    let colon = seq![TokV::Sign(Sign::Colon)];
    relex::lemma_free_sign(':');
    assert(seq![':'] =~= ":"@);
    assert forall|i: int| 0 <= i < ls.len() implies relex::bounded(
        #[trigger] ls[i],
        words(ls)[i],
    ) by {
        relex::lemma_bounded_word(ls[i]);
    }
    relex::lemma_bounded_strung(ls, words(ls), ":"@, colon);
    relex::lemma_strung(ls, ":"@);
    relex::lemma_free_bounded_join(
        ":"@,
        colon,
        relex::strung(ls, ":"@),
        relex::strung(words(ls), colon),
    );
}

proof fn lemma_node_reads(ans: AnswersV, n: NodeV)
    requires
        writable_node(ans, n),
    ensures
        graph::exported_node(ans, n) is Ok,
        relex::free(graph::exported_node(ans, n)->Ok_0, node_tokens(ans, n)),
{
    let props = props_text(ans, n.properties);
    let ptoks = props_tokens(ans, pairs(n.properties));
    let open = seq![TokV::Sign(Sign::LParen)];
    let close = seq![TokV::Sign(Sign::RParen)];
    let v = graph::exported_variable(n.id);
    let vt = seq![variable_token(n.id)];
    reveal_strlit("(");
    reveal_strlit(")");
    reveal_strlit(":");
    assert(seq!['('] =~= "("@);
    assert(seq![')'] =~= ")"@);
    lemma_props_read(ans, n.properties);
    relex::lemma_free_sign('(');
    relex::lemma_free_sign(')');
    lemma_variable_reads(n.id);
    relex::lemma_free_free(props, ptoks, ")"@, close);
    let tail = props + ")"@;
    let ttoks = ptoks + close;
    let ls = if n.labels.len() == 0 {
        seq![]
    } else {
        ":"@ + text::joined(n.labels, ":"@)
    };
    let rest = ls + tail;
    let rtoks = labels_tokens(n.labels) + ttoks;
    if n.labels.len() == 0 {
        assert(rest =~= tail);
        assert(rtoks =~= ttoks);
    } else {
        lemma_labels_read(n.labels);
        relex::lemma_bounded_free(ls, labels_tokens(n.labels), tail, ttoks);
        assert(rest[0] == ':');
    }
    assert(relex::ends_word(rest[0]));
    relex::lemma_bounded_free(v, vt, rest, rtoks);
    relex::lemma_free_free("("@, open, v + rest, vt + rtoks);
    assert("("@ + (v + rest) =~= "("@ + v + ls + props + ")"@);
    assert(open + (vt + rtoks) =~= node_tokens(ans, n));
}

proof fn lemma_named_reads(id: u64)
    ensures
        relex::free("("@ + graph::exported_variable(id) + ")"@, named_tokens(id)),
{
    let open = seq![TokV::Sign(Sign::LParen)];
    let close = seq![TokV::Sign(Sign::RParen)];
    let v = graph::exported_variable(id);
    let vt = seq![variable_token(id)];
    reveal_strlit("(");
    reveal_strlit(")");
    assert(seq!['('] =~= "("@);
    assert(seq![')'] =~= ")"@);
    relex::lemma_free_sign('(');
    relex::lemma_free_sign(')');
    lemma_variable_reads(id);
    relex::lemma_bounded_free(v, vt, ")"@, close);
    relex::lemma_free_free("("@, open, v + ")"@, vt + close);
    assert("("@ + (v + ")"@) =~= "("@ + v + ")"@);
    assert(open + (vt + close) =~= named_tokens(id));
}

/// The arrow behind a relationship, with the node behind it.
proof fn lemma_arrow_reads(id: u64)
    ensures
        relex::free(
            "]->("@ + graph::exported_variable(id) + ")"@,
            seq![TokV::Sign(Sign::RBrack), TokV::Sign(Sign::Minus), TokV::Sign(Sign::Gt)]
                + named_tokens(id),
        ),
{
    let close = seq![TokV::Sign(Sign::RParen)];
    let v = graph::exported_variable(id);
    let vt = seq![variable_token(id)];
    let brack = seq![TokV::Sign(Sign::RBrack)];
    let minus = seq![TokV::Sign(Sign::Minus)];
    let head = seq![TokV::Sign(Sign::Gt), TokV::Sign(Sign::LParen)];
    reveal_strlit("]->(");
    reveal_strlit(")");
    assert(seq![')'] =~= ")"@);
    relex::lemma_free_sign(']');
    relex::lemma_free_sign('-');
    relex::lemma_free_sign(')');
    relex::lemma_free_head();
    lemma_variable_reads(id);
    relex::lemma_free_free(seq!['-'], minus, seq!['>', '('], head);
    relex::lemma_free_free(seq![']'], brack, seq!['-'] + seq!['>', '('], minus + head);
    assert(seq![']'] + (seq!['-'] + seq!['>', '(']) =~= "]->("@);
    relex::lemma_bounded_free(v, vt, ")"@, close);
    relex::lemma_free_free("]->("@, brack + (minus + head), v + ")"@, vt + close);
    assert("]->("@ + (v + ")"@) =~= "]->("@ + v + ")"@);
    assert(brack + (minus + head) + (vt + close) =~= seq![
        TokV::Sign(Sign::RBrack),
        TokV::Sign(Sign::Minus),
        TokV::Sign(Sign::Gt),
    ] + named_tokens(id));
}

proof fn lemma_edge_reads(ans: AnswersV, e: EdgeV)
    requires
        writable_edge(ans, e),
    ensures
        graph::exported_edge(ans, e) is Ok,
        relex::free(graph::exported_edge(ans, e)->Ok_0, edge_tokens(ans, e)),
{
    let props = props_text(ans, e.properties);
    let ptoks = props_tokens(ans, pairs(e.properties));
    let src = "("@ + graph::exported_variable(e.src) + ")"@;
    let arrow = "]->("@ + graph::exported_variable(e.dst) + ")"@;
    let atoks = seq![TokV::Sign(Sign::RBrack), TokV::Sign(Sign::Minus), TokV::Sign(Sign::Gt)]
        + named_tokens(e.dst);
    let minus = seq![TokV::Sign(Sign::Minus)];
    let brack = seq![TokV::Sign(Sign::LBrack)];
    let colon = seq![TokV::Sign(Sign::Colon)];
    let w = seq![relex::word_token(e.label)];
    reveal_strlit(")-[:");
    reveal_strlit(")");
    reveal_strlit("]->(");
    lemma_props_read(ans, e.properties);
    lemma_named_reads(e.src);
    lemma_arrow_reads(e.dst);
    relex::lemma_bounded_word(e.label);
    relex::lemma_free_sign('-');
    relex::lemma_free_sign('[');
    relex::lemma_free_sign(':');
    let t1 = props + arrow;
    let k1 = ptoks + atoks;
    relex::lemma_free_free(props, ptoks, arrow, atoks);
    assert(relex::ends_word(t1[0])) by {
        if props.len() == 0 {
            assert(t1[0] == ']');
        } else {
            assert(t1[0] == props[0]);
        }
    }
    relex::lemma_bounded_free(e.label, w, t1, k1);
    relex::lemma_free_free(seq![':'], colon, e.label + t1, w + k1);
    relex::lemma_free_free(seq!['['], brack, seq![':'] + (e.label + t1), colon + (w + k1));
    relex::lemma_free_free(
        seq!['-'],
        minus,
        seq!['['] + (seq![':'] + (e.label + t1)),
        brack + (colon + (w + k1)),
    );
    let t2 = seq!['-'] + (seq!['['] + (seq![':'] + (e.label + t1)));
    let k2 = minus + (brack + (colon + (w + k1)));
    relex::lemma_free_free(src, named_tokens(e.src), t2, k2);
    assert(src + t2 =~= "("@ + graph::exported_variable(e.src) + ")-[:"@ + e.label + props
        + "]->("@ + graph::exported_variable(e.dst) + ")"@);
    assert(k2 =~= seq![
        TokV::Sign(Sign::Minus),
        TokV::Sign(Sign::LBrack),
        TokV::Sign(Sign::Colon),
        relex::word_token(e.label),
    ] + (ptoks + atoks));
}

pub proof fn lemma_piece_reads(ans: AnswersV, x: PieceV)
    requires
        writable_piece(ans, x),
    ensures
        exported_piece(ans, x) == Ok::<Seq<char>, ErrV>(piece_text(ans, x)),
        relex::free(piece_text(ans, x), piece_tokens(ans, x)),
{
    match x {
        PieceV::Node(n) => lemma_node_reads(ans, n),
        PieceV::Edge(e) => lemma_edge_reads(ans, e),
    }
}

// ---------------------------------------------------------------------------
// The query
// ---------------------------------------------------------------------------

pub open spec fn piece_texts(ans: AnswersV, xs: Seq<PieceV>) -> Seq<Seq<char>> {
    Seq::new(xs.len(), |i: int| piece_text(ans, xs[i]))
}

pub open spec fn pieces_tokens(ans: AnswersV, xs: Seq<PieceV>) -> Seq<Seq<TokV>> {
    Seq::new(xs.len(), |i: int| piece_tokens(ans, xs[i]))
}

/// The tokens of the query that creates some parts.
pub open spec fn query_tokens(ans: AnswersV, xs: Seq<PieceV>) -> Seq<TokV> {
    seq![TokV::Word("CREATE"@, Kw::Create)] + relex::strung(
        pieces_tokens(ans, xs),
        seq![TokV::Sign(Sign::Comma)],
    )
}

pub proof fn lemma_query_reads(ans: AnswersV, xs: Seq<PieceV>)
    requires
        xs.len() > 0,
        forall|i: int| 0 <= i < xs.len() ==> writable_piece(ans, #[trigger] xs[i]),
    ensures
        relex::bounded(
            "CREATE\n  "@ + text::joined(piece_texts(ans, xs), ",\n  "@),
            query_tokens(ans, xs),
        ),
{
    let ts = piece_texts(ans, xs);
    let ks = pieces_tokens(ans, xs);
    let comma = seq![TokV::Sign(Sign::Comma)];
    let create = seq![TokV::Word("CREATE"@, Kw::Create)];
    let none = Seq::<TokV>::empty();
    assert forall|i: int| 0 <= i < xs.len() implies relex::bounded(#[trigger] ts[i], ks[i]) by {
        lemma_piece_reads(ans, xs[i]);
        relex::lemma_free_bounded(ts[i], ks[i]);
    }
    reveal_strlit(",\n  ");
    reveal_strlit("CREATE\n  ");
    reveal_strlit("CREATE");
    relex::lemma_free_blank(' ');
    relex::lemma_free_blank('\n');
    relex::lemma_free_sign(',');
    let two = seq![' '] + seq![' '];
    relex::lemma_free_free(seq![' '], none, seq![' '], none);
    relex::lemma_free_free(seq!['\n'], none, two, none + none);
    assert(none + (none + none) =~= none);
    let gap = seq!['\n'] + two;
    relex::lemma_free_free(seq![','], comma, gap, none);
    assert(comma + none =~= comma);
    assert(seq![','] + gap =~= ",\n  "@);
    relex::lemma_bounded_strung(ts, ks, ",\n  "@, comma);
    relex::lemma_strung(ts, ",\n  "@);
    lexer::lemma_keyword_literals();
    assert(text::upper_text("CREATE"@) =~= "CREATE"@);
    relex::lemma_bounded_word("CREATE"@);
    relex::lemma_bounded_free("CREATE"@, create, gap, none);
    assert(create + none =~= create);
    assert("CREATE"@ + gap =~= "CREATE\n  "@);
    relex::lemma_free_bounded_join(
        "CREATE\n  "@,
        create,
        relex::strung(ts, ",\n  "@),
        relex::strung(ks, comma),
    );
}

} // verus!
