//! What calls of functions give for the values of their arguments.
use crate::ast::ExprV;
use crate::error::ErrV;
use crate::forms;
use crate::functions::{self, Func};
use crate::operators;
use crate::ops::EvalV;
use crate::relex;
use crate::semantics::{self, EnvV};
use crate::store::{self, StoreV};
use crate::text;
use crate::value::{EdgeV, NodeV, PathV, RecV, ValV};
use vstd::prelude::*;

verus! {

/// A name is that of a function.
pub open spec fn names(name: Seq<char>, f: Func) -> bool {
    functions::function_named(text::lower_text(name)) == f && !functions::is_aggregate(
        text::lower_text(name),
    )
}

/// The value of a call.
pub open spec fn called(
    name: Seq<char>,
    args: Seq<ExprV>,
    rec: RecV,
    env: EnvV,
    st: StoreV,
) -> EvalV {
    semantics::eval(ExprV::FunctionCall { name, distinct: false, args }, rec, env, st)
}

/// A call with one argument.
pub open spec fn with_one(
    name: Seq<char>,
    f: Func,
    e: ExprV,
    v: ValV,
    rec: RecV,
    env: EnvV,
    st: StoreV,
) -> bool {
    names(name, f) && operators::means(e, v, rec, env, st)
}

/// A function that a single argument is enough for.
spec fn takes_one(f: Func) -> bool {
    match f {
        Func::Size | Func::Head | Func::Tail | Func::Last | Func::Reverse | Func::Abs | Func::Sign
        | Func::StartNode | Func::EndNode | Func::Type | Func::Labels | Func::Id | Func::Nodes
        | Func::Relationships | Func::Length | Func::Trim | Func::LTrim | Func::RTrim => true,
        _ => false,
    }
}

/// A function that works on two arguments.
pub open spec fn takes_two(f: Func) -> bool {
    f == Func::Range || f == Func::Left || f == Func::Right || f == Func::Substring || f
        == Func::HasLabel || f == Func::Split
}

proof fn lemma_args(
    es: Seq<ExprV>,
    vs: Seq<ValV>,
    i: int,
    acc: Seq<ValV>,
    rec: RecV,
    env: EnvV,
    st: StoreV,
)
    requires
        forms::all_mean(es, vs, rec, env, st),
        0 <= i <= es.len(),
        acc == vs.take(i),
    ensures
        semantics::eval_all(es, es.len() as int, i, acc, rec, env.at(0), st) == Ok::<
            Seq<ValV>,
            ErrV,
        >(vs),
    decreases es.len() - i,
{
    if i < es.len() {
        operators::lemma_means(es[i], vs[i], rec, env, st, 0);
        operators::lemma_means(es[i], vs[i], rec, env.at(0), st, i);
        assert(acc.push(vs[i]) =~= vs.take(i + 1));
        lemma_args(es, vs, i + 1, acc.push(vs[i]), rec, env, st);
    } else {
        assert(vs.take(i) =~= vs);
    }
}

proof fn lemma_called(
    name: Seq<char>,
    f: Func,
    es: Seq<ExprV>,
    vs: Seq<ValV>,
    rec: RecV,
    env: EnvV,
    st: StoreV,
)
    requires
        names(name, f),
        f != Func::Coalesce,
        functions::args_used(f, es.len() as int) == es.len(),
        forms::all_mean(es, vs, rec, env, st),
    ensures
        called(name, es, rec, env, st) == functions::apply(
            f,
            vs,
            rec,
            env.answers,
            env.seed,
            st,
        ),
{
    let e = ExprV::FunctionCall { name, distinct: false, args: es };
    assert(vs.take(0) =~= seq![]);
    lemma_args(es, vs, 0, seq![], rec, env, st);
    assert(semantics::eval(e, rec, env, st) == semantics::eval_parts(e, rec, env, st));
    assert(semantics::eval_parts(e, rec, env, st) == semantics::eval_call(
        name,
        false,
        es,
        rec,
        env,
        st,
    ));
}

proof fn lemma_one(
    name: Seq<char>,
    f: Func,
    e: ExprV,
    v: ValV,
    rec: RecV,
    env: EnvV,
    st: StoreV,
)
    requires
        with_one(name, f, e, v, rec, env, st),
        takes_one(f),
    ensures
        called(name, seq![e], rec, env, st) == functions::apply_one(f, v, rec, env.answers, st),
{
    let es = seq![e];
    let vs = seq![v];
    assert forall|i: int| 0 <= i < es.len() implies operators::means(
        #[trigger] es[i],
        vs[i],
        rec,
        env,
        st,
    ) by {}
    assert(functions::args_used(f, es.len() as int) == es.len()) by {
        reveal(functions::args_used);
    }
    lemma_called(name, f, es, vs, rec, env, st);
    reveal(functions::apply);
}

/// A call with two arguments applies the function to their values.
pub proof fn lemma_two(
    name: Seq<char>,
    f: Func,
    d: ExprV,
    u: ValV,
    e: ExprV,
    v: ValV,
    rec: RecV,
    env: EnvV,
    st: StoreV,
)
    requires
        names(name, f),
        operators::both_mean(d, u, e, v, rec, env, st),
        takes_two(f),
    ensures
        called(name, seq![d, e], rec, env, st) == functions::apply_more(f, seq![u, v], env.answers),
{
    let es = seq![d, e];
    let vs = seq![u, v];
    assert forall|i: int| 0 <= i < es.len() implies operators::means(
        #[trigger] es[i],
        vs[i],
        rec,
        env,
        st,
    ) by {
        if i == 0 {
            assert(es[0] == d && vs[0] == u);
        } else {
            assert(es[1] == e && vs[1] == v);
        }
    }
    assert(functions::args_used(f, es.len() as int) == es.len()) by {
        reveal(functions::args_used);
    }
    lemma_called(name, f, es, vs, rec, env, st);
    reveal(functions::apply);
}

// ---------------------------------------------------------------------------
// Lists
// ---------------------------------------------------------------------------

/// `size` counts the items of a list, and `head` and `tail` take it apart: what
/// `head` gives before what `tail` gives is the list. `last` is the last item.
pub proof fn lemma_lists(
    size: Seq<char>,
    head: Seq<char>,
    tail: Seq<char>,
    last: Seq<char>,
    e: ExprV,
    items: Seq<ValV>,
    rec: RecV,
    env: EnvV,
    st: StoreV,
)
    requires
        names(size, Func::Size) && names(head, Func::Head) && names(tail, Func::Tail) && names(
            last,
            Func::Last,
        ),
        operators::means(e, ValV::List(items), rec, env, st),
    ensures
        called(size, seq![e], rec, env, st) == Ok::<ValV, ErrV>(
            ValV::Integer(items.len() as i64),
        ),
        items.len() > 0 ==> match (
            called(head, seq![e], rec, env, st),
            called(tail, seq![e], rec, env, st),
        ) {
            (Ok(h), Ok(ValV::List(t))) => seq![h] + t == items,
            _ => false,
        },
        items.len() > 0 ==> called(last, seq![e], rec, env, st) == Ok::<ValV, ErrV>(
            items[items.len() - 1],
        ),
        items.len() == 0 ==> called(head, seq![e], rec, env, st) == Ok::<ValV, ErrV>(ValV::Null)
            && called(last, seq![e], rec, env, st) == Ok::<ValV, ErrV>(ValV::Null),
{
    let v = ValV::List(items);
    lemma_one(size, Func::Size, e, v, rec, env, st);
    lemma_one(head, Func::Head, e, v, rec, env, st);
    lemma_one(tail, Func::Tail, e, v, rec, env, st);
    lemma_one(last, Func::Last, e, v, rec, env, st);
    if items.len() > 0 {
        assert(seq![items[0]] + items.skip(1) =~= items);
    }
}

/// `reverse` gives the items of a list, or the characters of a text, from the
/// last to the first.
pub proof fn lemma_reverse(
    name: Seq<char>,
    e: ExprV,
    v: ValV,
    rec: RecV,
    env: EnvV,
    st: StoreV,
)
    requires
        with_one(name, Func::Reverse, e, v, rec, env, st),
    ensures
        v matches ValV::List(items) ==> (called(name, seq![e], rec, env, st) matches Ok(
            ValV::List(out),
        ) && out.len() == items.len() && forall|i: int|
            0 <= i < items.len() ==> #[trigger] out[i] == items[items.len() - 1 - i]),
        v matches ValV::Str(s) ==> (called(name, seq![e], rec, env, st) matches Ok(ValV::Str(out))
            && out.len() == s.len() && forall|i: int|
            0 <= i < s.len() ==> #[trigger] out[i] == s[s.len() - 1 - i]),
{
    lemma_one(name, Func::Reverse, e, v, rec, env, st);
}

/// `range` counts from one number to another, and gives nothing where the first
/// is the greater one.
pub proof fn lemma_range(
    name: Seq<char>,
    d: ExprV,
    e: ExprV,
    a: i64,
    b: i64,
    rec: RecV,
    env: EnvV,
    st: StoreV,
)
    requires
        names(name, Func::Range),
        operators::both_mean(d, ValV::Integer(a), e, ValV::Integer(b), rec, env, st),
        b - a < functions::MAX_RANGE_ELEMENTS,
        b < i64::MAX,
    ensures
        called(name, seq![d, e], rec, env, st) matches Ok(ValV::List(out)) && out.len() == (if a
            <= b {
            b - a + 1
        } else {
            0
        }) && forall|i: int|
            0 <= i < out.len() ==> #[trigger] out[i] == ValV::Integer((a + i) as i64),
{
    lemma_two(name, Func::Range, d, ValV::Integer(a), e, ValV::Integer(b), rec, env, st);
    lemma_range_items(a as int, b as int, functions::MAX_RANGE_ELEMENTS as nat);
}

proof fn lemma_range_items(a: int, b: int, left: nat)
    requires
        b - a < left,
        i64::MIN <= a,
        b < i64::MAX,
    ensures
        ({
            let out = functions::range_items(a, b, 1, left);
            &&& out.len() == if a <= b {
                b - a + 1
            } else {
                0
            }
            &&& forall|i: int|
                0 <= i < out.len() ==> #[trigger] out[i] == ValV::Integer((a + i) as i64)
        }),
    decreases left,
{
    if a <= b {
        lemma_range_items(a + 1, b, (left - 1) as nat);
        let rest = functions::range_items(a + 1, b, 1, (left - 1) as nat);
        let out = functions::range_items(a, b, 1, left);
        assert(out == seq![ValV::Integer(a as i64)] + rest);
        assert forall|i: int| 0 <= i < out.len() implies #[trigger] out[i] == ValV::Integer(
            (a + i) as i64,
        ) by {
            if i > 0 {
                assert(out[i] == rest[i - 1]);
            }
        }
    }
}

// ---------------------------------------------------------------------------
// Numbers and texts
// ---------------------------------------------------------------------------

/// `abs` is the size of a number and `sign` its sign: their product is the
/// number.
pub proof fn lemma_abs_sign(
    abs: Seq<char>,
    sign: Seq<char>,
    e: ExprV,
    n: i64,
    rec: RecV,
    env: EnvV,
    st: StoreV,
)
    requires
        names(abs, Func::Abs) && names(sign, Func::Sign),
        operators::means(e, ValV::Integer(n), rec, env, st),
        n != i64::MIN,
    ensures
        match (called(abs, seq![e], rec, env, st), called(sign, seq![e], rec, env, st)) {
            (Ok(ValV::Integer(a)), Ok(ValV::Integer(s))) => a >= 0 && -1 <= s <= 1 && a * s == n
                && (n == 0 <==> s == 0),
            _ => false,
        },
{
    lemma_one(abs, Func::Abs, e, ValV::Integer(n), rec, env, st);
    lemma_one(sign, Func::Sign, e, ValV::Integer(n), rec, env, st);
    if n < 0 {
        assert((-n) * (-1) == n) by (nonlinear_arith);
    } else {
        assert(n * 1 == n && n * 0 == 0) by (nonlinear_arith);
    }
}

/// `left` gives as many characters from the start of a text, `right` as many
/// from its end, and `substring` what `left` leaves.
pub proof fn lemma_parts_of_text(
    left: Seq<char>,
    right: Seq<char>,
    substring: Seq<char>,
    d: ExprV,
    e: ExprV,
    s: Seq<char>,
    n: i64,
    rec: RecV,
    env: EnvV,
    st: StoreV,
)
    requires
        names(left, Func::Left) && names(right, Func::Right) && names(substring, Func::Substring),
        operators::both_mean(d, ValV::Str(s), e, ValV::Integer(n), rec, env, st),
        0 <= n <= s.len(),
    ensures
        match (
            called(left, seq![d, e], rec, env, st),
            called(right, seq![d, e], rec, env, st),
            called(substring, seq![d, e], rec, env, st),
        ) {
            (Ok(ValV::Str(a)), Ok(ValV::Str(b)), Ok(ValV::Str(c))) => a.len() == n && b.len() == n
                && a + c == s && (exists|p: Seq<char>| #[trigger] (p + b) == s),
            _ => false,
        },
{
    let u = ValV::Str(s);
    let v = ValV::Integer(n);
    lemma_two(left, Func::Left, d, u, e, v, rec, env, st);
    lemma_two(right, Func::Right, d, u, e, v, rec, env, st);
    lemma_two(substring, Func::Substring, d, u, e, v, rec, env, st);
    let k = s.len() - n;
    assert(s.subrange(0, k) + s.subrange(k, s.len() as int) =~= s);
    if n < s.len() {
        assert(s.subrange(0, n as int) + s.skip(n as int) =~= s);
    } else {
        assert(s.subrange(0, n as int) + seq![] =~= s);
    }
}

// ---------------------------------------------------------------------------
// Nodes and relationships
// ---------------------------------------------------------------------------

/// `startNode` and `endNode` give the nodes that a relationship leads from and
/// to, and `type` its type.
pub proof fn lemma_ends(
    start: Seq<char>,
    end: Seq<char>,
    kind: Seq<char>,
    e: ExprV,
    g: EdgeV,
    rec: RecV,
    env: EnvV,
    st: StoreV,
)
    requires
        store::well_formed(st),
        names(start, Func::StartNode) && names(end, Func::EndNode) && names(kind, Func::Type),
        operators::means(e, ValV::Relationship(g), rec, env, st),
        g.id < st.edges.len() && st.edges[g.id as int] == Some(g),
    ensures
        called(kind, seq![e], rec, env, st) == Ok::<ValV, ErrV>(ValV::Str(g.label)),
        called(start, seq![e], rec, env, st) matches Ok(ValV::Node(n)) && n.id == g.src,
        called(end, seq![e], rec, env, st) matches Ok(ValV::Node(n)) && n.id == g.dst,
{
    let v = ValV::Relationship(g);
    lemma_one(start, Func::StartNode, e, v, rec, env, st);
    lemma_one(end, Func::EndNode, e, v, rec, env, st);
    lemma_one(kind, Func::Type, e, v, rec, env, st);
    lemma_bound_node(rec, g.src, 0);
    lemma_bound_node(rec, g.dst, 0);
    assert(store::node_at(st, g.src) is Some && store::node_at(st, g.dst) is Some);
}

proof fn lemma_bound_node(rec: RecV, id: u64, i: int)
    requires
        0 <= i,
    ensures
        functions::bound_node(rec, id, i) matches Some(n) ==> n.id == id,
    decreases rec.len() - i,
{
    if i < rec.len() {
        lemma_bound_node(rec, id, i + 1);
    }
}

/// `labels` gives the labels of a node, and `id` its identifier.
pub proof fn lemma_labels(
    labels: Seq<char>,
    id: Seq<char>,
    e: ExprV,
    n: NodeV,
    rec: RecV,
    env: EnvV,
    st: StoreV,
)
    requires
        names(labels, Func::Labels) && names(id, Func::Id),
        operators::means(e, ValV::Node(n), rec, env, st),
        n.id <= i64::MAX,
    ensures
        called(labels, seq![e], rec, env, st) matches Ok(ValV::List(out)) && out.len()
            == n.labels.len() && forall|i: int|
            0 <= i < n.labels.len() ==> #[trigger] out[i] == ValV::Str(n.labels[i]),
        called(id, seq![e], rec, env, st) == Ok::<ValV, ErrV>(ValV::Integer(n.id as i64)),
{
    lemma_one(labels, Func::Labels, e, ValV::Node(n), rec, env, st);
    lemma_one(id, Func::Id, e, ValV::Node(n), rec, env, st);
}

/// `nodes` and `relationships` give those of a path in order, and `length` the
/// number of its relationships.
pub proof fn lemma_path(
    nodes: Seq<char>,
    relationships: Seq<char>,
    length: Seq<char>,
    e: ExprV,
    p: PathV,
    rec: RecV,
    env: EnvV,
    st: StoreV,
)
    requires
        names(nodes, Func::Nodes) && names(relationships, Func::Relationships) && names(
            length,
            Func::Length,
        ),
        operators::means(e, ValV::Path(p), rec, env, st),
    ensures
        called(nodes, seq![e], rec, env, st) matches Ok(ValV::List(out)) && out.len()
            == p.nodes.len() && forall|i: int|
            0 <= i < out.len() ==> #[trigger] out[i] == ValV::Node(p.nodes[i]),
        called(relationships, seq![e], rec, env, st) matches Ok(ValV::List(out)) && out.len()
            == p.relationships.len() && forall|i: int|
            0 <= i < out.len() ==> #[trigger] out[i] == ValV::Relationship(p.relationships[i]),
        called(length, seq![e], rec, env, st) == Ok::<ValV, ErrV>(
            ValV::Integer(p.relationships.len() as i64),
        ),
{
    let v = ValV::Path(p);
    lemma_one(nodes, Func::Nodes, e, v, rec, env, st);
    lemma_one(relationships, Func::Relationships, e, v, rec, env, st);
    lemma_one(length, Func::Length, e, v, rec, env, st);
}

// ---------------------------------------------------------------------------
// White space and separators
// ---------------------------------------------------------------------------

/// A text of white space alone.
pub open spec fn blank(s: Seq<char>) -> bool {
    forall|i: int| 0 <= i < s.len() ==> text::is_space(#[trigger] s[i])
}

/// `ltrim` takes away the white space at the front of a text, all of it and
/// nothing else, `rtrim` that at its end, and `trim` both.
pub proof fn lemma_trim(
    trim: Seq<char>,
    ltrim: Seq<char>,
    rtrim: Seq<char>,
    e: ExprV,
    s: Seq<char>,
    rec: RecV,
    env: EnvV,
    st: StoreV,
) -> (cut: (Seq<char>, Seq<char>, Seq<char>, Seq<char>))
    requires
        names(trim, Func::Trim) && names(ltrim, Func::LTrim) && names(rtrim, Func::RTrim),
        operators::means(e, ValV::Str(s), rec, env, st),
    ensures
        blank(cut.0) && blank(cut.1) && blank(cut.2) && blank(cut.3),
        match called(ltrim, seq![e], rec, env, st) {
            Ok(ValV::Str(out)) => cut.0 + out == s && (out.len() > 0 ==> !text::is_space(out[0])),
            _ => false,
        },
        match called(rtrim, seq![e], rec, env, st) {
            Ok(ValV::Str(out)) => out + cut.1 == s && (out.len() > 0 ==> !text::is_space(
                out[out.len() - 1],
            )),
            _ => false,
        },
        match called(trim, seq![e], rec, env, st) {
            Ok(ValV::Str(out)) => cut.2 + out + cut.3 == s && (out.len() > 0 ==> !text::is_space(
                out[0],
            ) && !text::is_space(out[out.len() - 1])),
            _ => false,
        },
{
    let v = ValV::Str(s);
    lemma_one(trim, Func::Trim, e, v, rec, env, st);
    lemma_one(ltrim, Func::LTrim, e, v, rec, env, st);
    lemma_one(rtrim, Func::RTrim, e, v, rec, env, st);
    let a = lemma_front(s);
    let b = lemma_back(s);
    let inner = text::trimmed_start(s);
    let c = lemma_back(inner);
    let out = text::trimmed(s);
    assert(a + out + c =~= a + inner);
    if out.len() > 0 {
        assert(inner[0] == (out + c)[0] == out[0]);
    }
    (a, b, a, c)
}

proof fn lemma_front(s: Seq<char>) -> (cut: Seq<char>)
    ensures
        blank(cut),
        cut + text::trimmed_start(s) == s,
        text::trimmed_start(s).len() > 0 ==> !text::is_space(text::trimmed_start(s)[0]),
    decreases s.len(),
{
    if s.len() > 0 && text::is_space(s[0]) {
        let rest = lemma_front(s.drop_first());
        let cut = seq![s[0]] + rest;
        assert forall|i: int| 0 <= i < cut.len() implies text::is_space(#[trigger] cut[i]) by {
            if i > 0 {
                assert(cut[i] == rest[i - 1]);
            }
        }
        assert(cut + text::trimmed_start(s) =~= seq![s[0]] + s.drop_first());
        assert(seq![s[0]] + s.drop_first() =~= s);
        cut
    } else {
        assert(seq![] + s =~= s);
        seq![]
    }
}

proof fn lemma_back(s: Seq<char>) -> (cut: Seq<char>)
    ensures
        blank(cut),
        text::trimmed_end(s) + cut == s,
        text::trimmed_end(s).len() > 0 ==> !text::is_space(
            text::trimmed_end(s)[text::trimmed_end(s).len() - 1],
        ),
    decreases s.len(),
{
    if s.len() > 0 && text::is_space(s.last()) {
        let rest = lemma_back(s.drop_last());
        let cut = rest.push(s.last());
        assert forall|i: int| 0 <= i < cut.len() implies text::is_space(#[trigger] cut[i]) by {
            if i < rest.len() {
                assert(cut[i] == rest[i]);
            }
        }
        assert(text::trimmed_end(s) + cut =~= s.drop_last().push(s.last()));
        assert(s.drop_last().push(s.last()) =~= s);
        cut
    } else {
        assert(s + seq![] =~= s);
        seq![]
    }
}

proof fn lemma_found(s: Seq<char>, sep: Seq<char>, i: int)
    requires
        0 <= i <= s.len() + 1,
    ensures
        match text::find_from(s, sep, i) {
            Some(k) => i <= k && text::occurs_at(s, sep, k) && forall|j: int|
                i <= j < k ==> !#[trigger] text::occurs_at(s, sep, j),
            None => forall|j: int| i <= j ==> !#[trigger] text::occurs_at(s, sep, j),
        },
    decreases s.len() - i + 1,
{
    if i + sep.len() <= s.len() && !text::occurs_at(s, sep, i) {
        lemma_found(s, sep, i + 1);
    }
}

/// A separator stands nowhere in a text.
pub open spec fn free_of(s: Seq<char>, sep: Seq<char>) -> bool {
    forall|j: int| !#[trigger] text::occurs_at(s, sep, j)
}

proof fn lemma_pieces(s: Seq<char>, sep: Seq<char>, from: int)
    requires
        sep.len() > 0,
        0 <= from <= s.len(),
    ensures
        text::pieces_from(s, sep, from).len() > 0,
        relex::strung(text::pieces_from(s, sep, from), sep) == s.skip(from),
        forall|k: int|
            0 <= k < text::pieces_from(s, sep, from).len() ==> free_of(
                #[trigger] text::pieces_from(s, sep, from)[k],
                sep,
            ),
    decreases s.len() - from,
{
    let all = text::pieces_from(s, sep, from);
    lemma_found(s, sep, from);
    match text::find_from(s, sep, from) {
        Some(i) => {
            let next = i + sep.len();
            lemma_pieces(s, sep, next);
            let rest = text::pieces_from(s, sep, next);
            let one = s.subrange(from, i);
            assert(all == seq![one] + rest);
            assert(all.skip(1) =~= rest);
            assert(one + sep + s.skip(next) =~= s.skip(from)) by {
                assert(s.subrange(i, next) == sep);
                assert forall|k: int| 0 <= k < sep.len() implies sep[k] == s[i + k] by {
                    assert(s.subrange(i, next)[k] == s[i + k]);
                }
            }
            assert forall|j: int| !#[trigger] text::occurs_at(one, sep, j) by {
                if text::occurs_at(one, sep, j) {
                    assert(s.subrange(from + j, from + j + sep.len()) =~= one.subrange(
                        j,
                        j + sep.len(),
                    ));
                    assert(text::occurs_at(s, sep, from + j));
                }
            }
            assert forall|k: int| 0 <= k < all.len() implies free_of(#[trigger] all[k], sep) by {
                if k > 0 {
                    assert(all[k] == rest[k - 1]);
                }
            }
        },
        None => {
            let one = s.skip(from);
            assert(all == seq![one]);
            assert forall|j: int| !#[trigger] text::occurs_at(one, sep, j) by {
                if text::occurs_at(one, sep, j) {
                    assert(s.subrange(from + j, from + j + sep.len()) =~= one.subrange(
                        j,
                        j + sep.len(),
                    ));
                    assert(text::occurs_at(s, sep, from + j));
                }
            }
        },
    }
}

/// `split` cuts a text at a separator: the pieces with the separator between
/// them are the text, and no piece has the separator in it. `replace` puts
/// another text between the same pieces.
pub proof fn lemma_split_replace(
    split: Seq<char>,
    replace: Seq<char>,
    d: ExprV,
    e: ExprV,
    f: ExprV,
    s: Seq<char>,
    sep: Seq<char>,
    to: Seq<char>,
    rec: RecV,
    env: EnvV,
    st: StoreV,
) -> (pieces: Seq<Seq<char>>)
    requires
        names(split, Func::Split) && names(replace, Func::Replace),
        sep.len() > 0,
        operators::both_mean(d, ValV::Str(s), e, ValV::Str(sep), rec, env, st),
        operators::means(f, ValV::Str(to), rec, env, st),
    ensures
        relex::strung(pieces, sep) == s,
        forall|k: int| 0 <= k < pieces.len() ==> free_of(#[trigger] pieces[k], sep),
        called(split, seq![d, e], rec, env, st) matches Ok(ValV::List(out)) && out.len()
            == pieces.len() && forall|k: int|
            0 <= k < pieces.len() ==> #[trigger] out[k] == ValV::Str(pieces[k]),
        called(replace, seq![d, e, f], rec, env, st) == Ok::<ValV, ErrV>(
            ValV::Str(relex::strung(pieces, to)),
        ),
{
    let pieces = text::split_pieces(s, sep);
    lemma_pieces(s, sep, 0);
    assert(s.skip(0) =~= s);
    lemma_two(split, Func::Split, d, ValV::Str(s), e, ValV::Str(sep), rec, env, st);
    relex::lemma_strung(pieces, to);
    let es = seq![d, e, f];
    let vs = seq![ValV::Str(s), ValV::Str(sep), ValV::Str(to)];
    assert forall|i: int| 0 <= i < es.len() implies operators::means(
        #[trigger] es[i],
        vs[i],
        rec,
        env,
        st,
    ) by {
        if i == 0 {
            assert(es[0] == d && vs[0] == ValV::Str(s));
        } else if i == 1 {
            assert(es[1] == e && vs[1] == ValV::Str(sep));
        } else {
            assert(es[2] == f && vs[2] == ValV::Str(to));
        }
    }
    assert(functions::args_used(Func::Replace, 3) == 3) by {
        reveal(functions::args_used);
    }
    lemma_called(replace, Func::Replace, es, vs, rec, env, st);
    reveal(functions::apply);
    pieces
}

} // verus!
