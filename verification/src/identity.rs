//! Keys tell values apart: two values have one key just where they are alike.
use crate::arrange;
use crate::assoc;
use crate::functions;
use crate::keying;
use crate::number;
use crate::relex;
use crate::text::{self, Order};
use crate::value::{RecV, ValV};
use vstd::prelude::*;
use vstd::relations;

verus! {

// ---------------------------------------------------------------------------
// Alike values
// ---------------------------------------------------------------------------

/// Two values are alike: they are equal, where both zeros count as one, the
/// entries of a map have no order, and nodes, relationships and paths are
/// known by their identifiers.
pub open spec fn alike(a: ValV, b: ValV) -> bool
    decreases a,
{
    match (a, b) {
        (ValV::Float(x), ValV::Float(y)) => number::one_zero(x) == number::one_zero(y),
        (ValV::List(x), ValV::List(y)) => x.len() == y.len() && forall|i: int|
            0 <= i < x.len() ==> alike(#[trigger] x[i], y[i]),
        (ValV::Dict(m), ValV::Dict(n)) => m.len() == n.len() && forall|i: int|
            0 <= i < m.len() ==> exists|j: int|
                0 <= j < n.len() && n[j].0 == (#[trigger] m[i]).0 && alike(
                    m[i].1,
                    (#[trigger] n[j]).1,
                ),
        (ValV::Node(x), ValV::Node(y)) => x.id == y.id,
        (ValV::Relationship(x), ValV::Relationship(y)) => x.id == y.id,
        (ValV::Path(x), ValV::Path(y)) => keying::node_ids(x.nodes) == keying::node_ids(y.nodes)
            && keying::edge_ids(x.relationships) == keying::edge_ids(y.relationships),
        _ => a == b,
    }
}

/// No map in a value has a key twice.
pub open spec fn plainly_keyed(v: ValV) -> bool
    decreases v,
{
    match v {
        ValV::List(x) => forall|i: int| 0 <= i < x.len() ==> plainly_keyed(#[trigger] x[i]),
        ValV::Dict(m) => assoc::distinct_keys(m) && forall|i: int|
            0 <= i < m.len() ==> plainly_keyed((#[trigger] m[i]).1),
        _ => true,
    }
}

/// Several values are alike, one by one.
pub open spec fn all_alike(a: Seq<ValV>, b: Seq<ValV>) -> bool {
    a.len() == b.len() && forall|i: int| 0 <= i < a.len() ==> alike(#[trigger] a[i], b[i])
}

// ---------------------------------------------------------------------------
// Texts of which none begins with another
// ---------------------------------------------------------------------------

/// Two texts are equal, or differ at a place that both have.
pub open spec fn apart(u: Seq<char>, v: Seq<char>) -> bool {
    u == v || exists|k: int| 0 <= k < u.len() && k < v.len() && #[trigger] u[k] != v[k]
}

proof fn lemma_apart_join(u: Seq<char>, v: Seq<char>, x: Seq<char>, y: Seq<char>)
    requires
        apart(u, v),
        u == v ==> apart(x, y),
    ensures
        apart(u + x, v + y),
        u + x == v + y ==> u == v && x == y,
{
    if u == v {
        if x != y {
            let k = choose|k: int| 0 <= k < x.len() && k < y.len() && #[trigger] x[k] != y[k];
            let m = u.len() + k;
            assert((u + x)[m] == x[k] && (v + y)[m] == y[k]);
        }
    } else {
        let k = choose|k: int| 0 <= k < u.len() && k < v.len() && #[trigger] u[k] != v[k];
        assert((u + x)[k] == u[k] && (v + y)[k] == v[k]);
    }
}

/// Behind texts that are apart, what follows can be told.
proof fn lemma_apart_split(u: Seq<char>, v: Seq<char>, x: Seq<char>, y: Seq<char>)
    requires
        apart(u, v),
        u + x == v + y,
    ensures
        u == v,
        x == y,
{
    if u != v {
        let k = choose|k: int| 0 <= k < u.len() && k < v.len() && #[trigger] u[k] != v[k];
        assert((u + x)[k] == u[k] && (v + y)[k] == v[k]);
    } else {
        assert((u + x).skip(u.len() as int) =~= x);
        assert((v + y).skip(v.len() as int) =~= y);
    }
}

/// Texts of one length are apart.
proof fn lemma_apart_len(u: Seq<char>, v: Seq<char>)
    requires
        u.len() == v.len(),
    ensures
        apart(u, v),
{
    if u != v {
        assert(!(u =~= v));
        assert(exists|k: int| 0 <= k < u.len() && #[trigger] u[k] != v[k]);
    }
}

/// A character does not occur in a text.
pub open spec fn lacks(u: Seq<char>, c: char) -> bool {
    forall|k: int| 0 <= k < u.len() ==> #[trigger] u[k] != c
}

/// Texts that lack a character are apart with it behind them.
proof fn lemma_apart_ended(u: Seq<char>, v: Seq<char>, c: char)
    requires
        lacks(u, c),
        lacks(v, c),
    ensures
        apart(u + seq![c], v + seq![c]),
        u + seq![c] == v + seq![c] ==> u == v,
{
    let x = u + seq![c];
    let y = v + seq![c];
    if u.len() == v.len() {
        lemma_apart_len(x, y);
        if x == y {
            assert(x.take(u.len() as int) =~= u);
            assert(y.take(v.len() as int) =~= v);
        }
    } else if u.len() < v.len() {
        let k = u.len() as int;
        assert(x[k] == c && y[k] == v[k]);
    } else {
        let k = v.len() as int;
        assert(y[k] == c && x[k] == u[k]);
    }
}

proof fn lemma_numerals_lack(n: nat, c: char)
    requires
        !('0' <= c <= '9'),
    ensures
        lacks(text::nat_text(n), c),
{
    relex::lemma_nat_digits(n);
}

proof fn lemma_int_text(i: int, j: int)
    ensures
        lacks(text::int_text(i), ';'),
        text::int_text(i) == text::int_text(j) ==> i == j,
{
    lemma_numerals_lack((if i < 0 { -i } else { i }) as nat, ';');
    let d = text::nat_text((-i) as nat);
    let e = text::nat_text((-j) as nat);
    relex::lemma_nat_digits((if i < 0 { -i } else { i }) as nat);
    relex::lemma_nat_digits((if j < 0 { -j } else { j }) as nat);
    if i < 0 {
        assert forall|k: int| 0 <= k < text::int_text(i).len() implies #[trigger] text::int_text(
            i,
        )[k] != ';' by {
            if k > 0 {
                assert(text::int_text(i)[k] == d[k - 1]);
            }
        }
    }
    if text::int_text(i) == text::int_text(j) {
        if i < 0 && j < 0 {
            assert(text::int_text(i).skip(1) =~= d);
            assert(text::int_text(j).skip(1) =~= e);
            relex::lemma_nat_text_tells((-i) as nat, (-j) as nat);
        } else if i >= 0 && j >= 0 {
            relex::lemma_nat_text_tells(i as nat, j as nat);
        } else if i < 0 {
            assert(text::int_text(i)[0] == '-');
            assert('0' <= text::nat_text(j as nat)[0] <= '9');
        } else {
            assert(text::int_text(j)[0] == '-');
            assert('0' <= text::nat_text(i as nat)[0] <= '9');
        }
    }
}

/// Integers with a semicolon behind them.
proof fn lemma_apart_int(i: int, j: int)
    ensures
        apart(text::int_text(i) + ";"@, text::int_text(j) + ";"@),
        text::int_text(i) + ";"@ == text::int_text(j) + ";"@ ==> i == j,
{
    reveal_strlit(";");
    assert(";"@ =~= seq![';']);
    lemma_int_text(i, j);
    lemma_int_text(j, i);
    lemma_apart_ended(text::int_text(i), text::int_text(j), ';');
}

proof fn lemma_apart_nat(i: nat, j: nat)
    ensures
        apart(text::nat_text(i) + ";"@, text::nat_text(j) + ";"@),
        text::nat_text(i) + ";"@ == text::nat_text(j) + ";"@ ==> i == j,
{
    lemma_apart_int(i as int, j as int);
}

/// Texts behind their lengths.
proof fn lemma_apart_sized(s: Seq<char>, t: Seq<char>)
    ensures
        apart(keying::sized(s), keying::sized(t)),
        keying::sized(s) == keying::sized(t) ==> s == t,
{
    reveal_strlit(":");
    assert(":"@ =~= seq![':']);
    let u = text::nat_text(s.len());
    let v = text::nat_text(t.len());
    lemma_numerals_lack(s.len(), ':');
    lemma_numerals_lack(t.len(), ':');
    lemma_apart_ended(u, v, ':');
    if u + ":"@ == v + ":"@ {
        relex::lemma_nat_text_tells(s.len(), t.len());
        lemma_apart_len(s, t);
    }
    lemma_apart_join(u + ":"@, v + ":"@, s, t);
}

/// Texts that can stand in a list: they have a first character, which is no
/// separator and closes no list.
pub open spec fn listable(u: Seq<char>) -> bool {
    u.len() > 0 && u[0] != ',' && u[0] != ']' && u[0] != '}'
}

/// Lists of texts that are apart are apart, with a closing bracket behind
/// them, and tell their texts.
proof fn lemma_apart_strung(a: Seq<Seq<char>>, b: Seq<Seq<char>>, close: char)
    requires
        close == ']' || close == '}',
        forall|i: int| 0 <= i < a.len() ==> listable(#[trigger] a[i]),
        forall|j: int| 0 <= j < b.len() ==> listable(#[trigger] b[j]),
        forall|i: int, j: int|
            0 <= i < a.len() && 0 <= j < b.len() ==> apart(#[trigger] a[i], #[trigger] b[j]),
    ensures
        apart(
            relex::strung(a, seq![',']) + seq![close],
            relex::strung(b, seq![',']) + seq![close],
        ),
        relex::strung(a, seq![',']) + seq![close] == relex::strung(b, seq![',']) + seq![close] ==> a
            == b,
    decreases a.len(),
{
    let sep = seq![','];
    let end = seq![close];
    let x = relex::strung(a, sep) + end;
    let y = relex::strung(b, sep) + end;
    if a.len() == 0 && b.len() == 0 {
        assert(a =~= b);
    } else if a.len() == 0 {
        assert(listable(b[0]));
        assert(x[0] == close);
        assert(y[0] == b[0][0]);
    } else if b.len() == 0 {
        assert(listable(a[0]));
        assert(y[0] == close);
        assert(x[0] == a[0][0]);
    } else {
        let p = behind(a, close);
        let q = behind(b, close);
        assert(x =~= a[0] + p);
        assert(y =~= b[0] + q);
        assert(apart(a[0], b[0]));
        let ra = a.skip(1);
        let rb = b.skip(1);
        if a.len() == 1 && b.len() == 1 {
            assert(a[0] == b[0] ==> a =~= b);
        } else if a.len() == 1 {
            assert(p[0] == close && q[0] == ',');
        } else if b.len() == 1 {
            assert(q[0] == close && p[0] == ',');
        } else {
            assert forall|i: int| 0 <= i < ra.len() implies listable(#[trigger] ra[i]) by {
                assert(listable(a[i + 1]));
            }
            assert forall|i: int| 0 <= i < rb.len() implies listable(#[trigger] rb[i]) by {
                assert(listable(b[i + 1]));
            }
            assert forall|i: int, j: int|
                0 <= i < ra.len() && 0 <= j < rb.len() implies apart(
                #[trigger] ra[i],
                #[trigger] rb[j],
            ) by {
                assert(apart(a[i + 1], b[j + 1]));
            }
            lemma_apart_strung(ra, rb, close);
            assert(p =~= sep + (relex::strung(ra, sep) + end));
            assert(q =~= sep + (relex::strung(rb, sep) + end));
            lemma_apart_join(
                sep,
                sep,
                relex::strung(ra, sep) + end,
                relex::strung(rb, sep) + end,
            );
            if a[0] == b[0] && ra == rb {
                assert forall|i: int| 0 <= i < a.len() implies a[i] == b[i] by {
                    if i > 0 {
                        assert(ra[i - 1] == a[i] && rb[i - 1] == b[i]);
                    }
                }
                assert(a.len() == ra.len() + 1 && b.len() == rb.len() + 1);
                assert(a =~= b);
            }
        }
        lemma_apart_join(a[0], b[0], p, q);
    }
}

/// What stands behind the first text of a list.
spec fn behind(a: Seq<Seq<char>>, close: char) -> Seq<char> {
    if a.len() <= 1 {
        seq![close]
    } else {
        seq![','] + relex::strung(a.skip(1), seq![',']) + seq![close]
    }
}

// ---------------------------------------------------------------------------
// Keys of values
// ---------------------------------------------------------------------------

/// The mark that the key of a value begins with.
spec fn mark(v: ValV) -> Seq<char> {
    match v {
        ValV::Null => "N"@,
        ValV::Boolean(_) => "B:"@,
        ValV::Integer(_) => "I:"@,
        ValV::Float(_) => "F:"@,
        ValV::Str(_) => "S:"@,
        ValV::List(_) => "L:["@,
        ValV::Dict(_) => "M:{"@,
        ValV::Node(_) => "n:"@,
        ValV::Relationship(_) => "r:"@,
        ValV::Path(_) => "P:["@,
        ValV::Date(_) => "D:"@,
        ValV::Timestamp(_, _) => "T:"@,
    }
}

/// What stands behind the mark in the key of a value.
spec fn body(v: ValV) -> Seq<char> {
    match v {
        ValV::Null => seq![],
        ValV::Boolean(b) => functions::bool_text(b),
        ValV::Integer(i) => text::int_text(i as int) + ";"@,
        ValV::Float(f) => text::nat_text(number::one_zero(f) as nat) + ";"@,
        ValV::Str(s) => keying::sized(s),
        ValV::List(x) => relex::strung(keying::stable_keys(x), seq![',']) + seq![']'],
        ValV::Dict(m) => relex::strung(sorted_entries(m), seq![',']) + seq!['}'],
        ValV::Node(n) => text::nat_text(n.id as nat) + ";"@,
        ValV::Relationship(e) => text::nat_text(e.id as nat) + ";"@,
        ValV::Path(p) => ids_text(keying::node_ids(p.nodes)) + (seq!['['] + ids_text(
            keying::edge_ids(p.relationships),
        )),
        ValV::Date(d) => text::int_text(d as int) + ";"@,
        ValV::Timestamp(s, n) => (text::int_text(s as int) + ";"@) + (text::nat_text(n as nat)
            + ";"@),
    }
}

spec fn ids_text(ids: Seq<u64>) -> Seq<char> {
    relex::strung(keying::id_keys(ids), seq![',']) + seq![']']
}

spec fn sorted_entries(m: RecV) -> Seq<Seq<char>> {
    arrange::arranged(keying::stable_entries(m), arrange::text_after())
}

#[verifier::spinoff_prover]
proof fn lemma_parts(v: ValV)
    ensures
        keying::stable_key(v) == mark(v) + body(v),
{
    reveal_strlit(",");
    reveal_strlit("]");
    reveal_strlit("}");
    reveal_strlit("][");
    assert(","@ =~= seq![',']);
    assert("]"@ =~= seq![']']);
    assert("}"@ =~= seq!['}']);
    let k = keying::stable_key(v);
    match v {
        ValV::Null => assert(k =~= mark(v) + body(v)),
        ValV::List(x) => {
            relex::lemma_strung(keying::stable_keys(x), ","@);
            assert(k =~= mark(v) + body(v));
        },
        ValV::Dict(m) => {
            relex::lemma_strung(sorted_entries(m), ","@);
            assert(k =~= mark(v) + body(v));
        },
        ValV::Path(p) => {
            let u = keying::id_keys(keying::node_ids(p.nodes));
            let w = keying::id_keys(keying::edge_ids(p.relationships));
            relex::lemma_strung(u, ","@);
            relex::lemma_strung(w, ","@);
            lemma_path_parts(relex::strung(u, seq![',']), relex::strung(w, seq![',']));
        },
        ValV::Timestamp(s, n) => assert(k =~= mark(v) + body(v)),
        ValV::Integer(_) => assert(k =~= mark(v) + body(v)),
        ValV::Float(_) => assert(k =~= mark(v) + body(v)),
        ValV::Node(_) => assert(k =~= mark(v) + body(v)),
        ValV::Relationship(_) => assert(k =~= mark(v) + body(v)),
        ValV::Date(_) => assert(k =~= mark(v) + body(v)),
        _ => {},
    }
}

proof fn lemma_path_parts(u: Seq<char>, w: Seq<char>)
    ensures
        "P:["@ + u + "]["@ + w + "]"@ == "P:["@ + ((u + seq![']']) + (seq!['['] + (w + seq![']']))),
{
    reveal_strlit("][");
    reveal_strlit("]");
    assert("P:["@ + u + "]["@ + w + "]"@ =~= "P:["@ + ((u + seq![']']) + (seq!['['] + (w + seq![
        ']',
    ]))));
}

/// The letter that the key of a value begins with.
spec fn letter(v: ValV) -> char {
    match v {
        ValV::Null => 'N',
        ValV::Boolean(_) => 'B',
        ValV::Integer(_) => 'I',
        ValV::Float(_) => 'F',
        ValV::Str(_) => 'S',
        ValV::List(_) => 'L',
        ValV::Dict(_) => 'M',
        ValV::Node(_) => 'n',
        ValV::Relationship(_) => 'r',
        ValV::Path(_) => 'P',
        ValV::Date(_) => 'D',
        ValV::Timestamp(_, _) => 'T',
    }
}

proof fn lemma_letter(v: ValV)
    ensures
        mark(v).len() > 0,
        mark(v)[0] == letter(v),
{
    reveal_strlit("N");
    reveal_strlit("B:");
    reveal_strlit("I:");
    reveal_strlit("F:");
    reveal_strlit("S:");
    reveal_strlit("L:[");
    reveal_strlit("M:{");
    reveal_strlit("n:");
    reveal_strlit("r:");
    reveal_strlit("P:[");
    reveal_strlit("D:");
    reveal_strlit("T:");
}

proof fn lemma_marks(a: ValV, b: ValV)
    ensures
        apart(mark(a), mark(b)),
{
    lemma_letter(a);
    lemma_letter(b);
    let u = mark(a);
    let v = mark(b);
    if u != v {
        assert(letter(a) != letter(b));
        assert(u[0] != v[0]);
    }
}

proof fn lemma_listable_key(v: ValV)
    ensures
        listable(keying::stable_key(v)),
{
    lemma_parts(v);
    lemma_letter(v);
    assert(keying::stable_key(v)[0] == mark(v)[0]);
}

proof fn lemma_listable_sized(s: Seq<char>, rest: Seq<char>)
    ensures
        listable(keying::sized(s) + rest),
{
    relex::lemma_nat_digits(s.len());
    let d = text::nat_text(s.len());
    assert((keying::sized(s) + rest)[0] == d[0]);
    assert('0' <= d[0] <= '9');
}

proof fn lemma_ids_apart(a: Seq<u64>, b: Seq<u64>)
    ensures
        apart(ids_text(a), ids_text(b)),
        ids_text(a) == ids_text(b) ==> a == b,
{
    let x = keying::id_keys(a);
    let y = keying::id_keys(b);
    assert forall|i: int| 0 <= i < x.len() implies listable(#[trigger] x[i]) by {
        lemma_listable_id(a[i]);
    }
    assert forall|i: int| 0 <= i < y.len() implies listable(#[trigger] y[i]) by {
        lemma_listable_id(b[i]);
    }
    assert forall|i: int, j: int| 0 <= i < x.len() && 0 <= j < y.len() implies apart(
        #[trigger] x[i],
        #[trigger] y[j],
    ) by {
        lemma_apart_nat(a[i] as nat, b[j] as nat);
    }
    lemma_apart_strung(x, y, ']');
    if x == y {
        assert forall|i: int| 0 <= i < a.len() implies a[i] == b[i] by {
            assert(x[i] == y[i]);
            lemma_apart_nat(a[i] as nat, b[i] as nat);
        }
        assert(x.len() == a.len() && y.len() == b.len());
        assert(a =~= b);
    }
}

proof fn lemma_listable_id(id: u64)
    ensures
        listable(text::nat_text(id as nat) + ";"@),
{
    relex::lemma_nat_digits(id as nat);
    let d = text::nat_text(id as nat);
    assert((d + ";"@)[0] == d[0]);
    assert('0' <= d[0] <= '9');
}

/// Where an entry of sorted entries stands in the map.
proof fn lemma_sorted_entry(m: RecV, i: int) -> (j: int)
    requires
        0 <= i < sorted_entries(m).len(),
    ensures
        0 <= j < m.len(),
        sorted_entries(m)[i] == keying::sized(m[j].0) + keying::stable_key(m[j].1),
{
    broadcast use vstd::seq_lib::group_to_multiset_ensures;

    let es = keying::stable_entries(m);
    let ss = sorted_entries(m);
    arrange::lemma_arranged_same_items(es, arrange::text_after());
    assert(ss.contains(ss[i]));
    assert(ss.to_multiset().count(ss[i]) > 0);
    assert(es.contains(ss[i]));
    let j = choose|j: int| 0 <= j < es.len() && es[j] == ss[i];
    assert(es[j] == keying::sized(m[j].0) + keying::stable_key(m[j].1));
    j
}

proof fn lemma_body_apart(a: ValV, b: ValV)
    requires
        mark(a) == mark(b),
    ensures
        apart(body(a), body(b)),
    decreases a, 0nat,
{
    lemma_marks_tell(a, b);
    match (a, b) {
        (ValV::Boolean(x), ValV::Boolean(y)) => {
            reveal_strlit("true");
            reveal_strlit("false");
            let u = functions::bool_text(x);
            let v = functions::bool_text(y);
            if x != y {
                assert(u[0] != v[0]);
            }
        },
        (ValV::Integer(x), ValV::Integer(y)) => lemma_apart_int(x as int, y as int),
        (ValV::Float(x), ValV::Float(y)) => {
            lemma_apart_nat(number::one_zero(x) as nat, number::one_zero(y) as nat);
        },
        (ValV::Str(x), ValV::Str(y)) => lemma_apart_sized(x, y),
        (ValV::List(x), ValV::List(y)) => lemma_lists_apart(x, y),
        (ValV::Dict(x), ValV::Dict(y)) => lemma_maps_apart(x, y),
        (ValV::Node(x), ValV::Node(y)) => lemma_apart_nat(x.id as nat, y.id as nat),
        (ValV::Relationship(x), ValV::Relationship(y)) => {
            lemma_apart_nat(x.id as nat, y.id as nat);
        },
        (ValV::Path(x), ValV::Path(y)) => lemma_paths_apart(a, b),
        (ValV::Date(x), ValV::Date(y)) => lemma_apart_int(x as int, y as int),
        (ValV::Timestamp(s, n), ValV::Timestamp(t, m)) => {
            lemma_apart_int(s as int, t as int);
            lemma_apart_nat(n as nat, m as nat);
            lemma_apart_join(
                text::int_text(s as int) + ";"@,
                text::int_text(t as int) + ";"@,
                text::nat_text(n as nat) + ";"@,
                text::nat_text(m as nat) + ";"@,
            );
        },
        _ => {},
    }
}

proof fn lemma_paths_apart(a: ValV, b: ValV)
    requires
        a is Path,
        b is Path,
    ensures
        apart(body(a), body(b)),
        body(a) == body(b) ==> alike(a, b),
{
    let x = a->Path_0;
    let y = b->Path_0;
    let open = seq!['['];
    let na = keying::node_ids(x.nodes);
    let nb = keying::node_ids(y.nodes);
    let ea = keying::edge_ids(x.relationships);
    let eb = keying::edge_ids(y.relationships);
    lemma_ids_apart(na, nb);
    lemma_ids_apart(ea, eb);
    lemma_apart_join(open, open, ids_text(ea), ids_text(eb));
    lemma_apart_join(ids_text(na), ids_text(nb), open + ids_text(ea), open + ids_text(eb));
}

/// Values with one mark are of one kind.
proof fn lemma_marks_tell(a: ValV, b: ValV)
    requires
        mark(a) == mark(b),
    ensures
        letter(a) == letter(b),
{
    lemma_letter(a);
    lemma_letter(b);
}

proof fn lemma_lists_apart(x: Seq<ValV>, y: Seq<ValV>)
    ensures
        apart(body(ValV::List(x)), body(ValV::List(y))),
        body(ValV::List(x)) == body(ValV::List(y)) ==> keying::stable_keys(x)
            == keying::stable_keys(y),
    decreases x, 2nat,
{
    let u = keying::stable_keys(x);
    let v = keying::stable_keys(y);
    assert forall|i: int| 0 <= i < u.len() implies listable(#[trigger] u[i]) by {
        lemma_listable_key(x[i]);
    }
    assert forall|i: int| 0 <= i < v.len() implies listable(#[trigger] v[i]) by {
        lemma_listable_key(y[i]);
    }
    assert forall|i: int, j: int| 0 <= i < u.len() && 0 <= j < v.len() implies apart(
        #[trigger] u[i],
        #[trigger] v[j],
    ) by {
        lemma_key_apart(x[i], y[j]);
    }
    lemma_apart_strung(u, v, ']');
}

proof fn lemma_maps_apart(x: RecV, y: RecV)
    ensures
        apart(body(ValV::Dict(x)), body(ValV::Dict(y))),
        body(ValV::Dict(x)) == body(ValV::Dict(y)) ==> sorted_entries(x) == sorted_entries(y),
    decreases x, 2nat,
{
    let u = sorted_entries(x);
    let v = sorted_entries(y);
    assert forall|i: int| 0 <= i < u.len() implies listable(#[trigger] u[i]) by {
        let p = lemma_sorted_entry(x, i);
        lemma_listable_sized(x[p].0, keying::stable_key(x[p].1));
    }
    assert forall|i: int| 0 <= i < v.len() implies listable(#[trigger] v[i]) by {
        let p = lemma_sorted_entry(y, i);
        lemma_listable_sized(y[p].0, keying::stable_key(y[p].1));
    }
    assert forall|i: int, j: int| 0 <= i < u.len() && 0 <= j < v.len() implies apart(
        #[trigger] u[i],
        #[trigger] v[j],
    ) by {
        let p = lemma_sorted_entry(x, i);
        let q = lemma_sorted_entry(y, j);
        lemma_apart_sized(x[p].0, y[q].0);
        lemma_key_apart(x[p].1, y[q].1);
        lemma_apart_join(
            keying::sized(x[p].0),
            keying::sized(y[q].0),
            keying::stable_key(x[p].1),
            keying::stable_key(y[q].1),
        );
    }
    lemma_apart_strung(u, v, '}');
}

/// No key of a value begins with the key of another one.
proof fn lemma_key_apart(a: ValV, b: ValV)
    ensures
        apart(keying::stable_key(a), keying::stable_key(b)),
        keying::stable_key(a) == keying::stable_key(b) ==> mark(a) == mark(b) && body(a) == body(
            b,
        ),
    decreases a, 1nat,
{
    lemma_parts(a);
    lemma_parts(b);
    lemma_marks(a, b);
    if mark(a) == mark(b) {
        lemma_body_apart(a, b);
    }
    lemma_apart_join(mark(a), mark(b), body(a), body(b));
}

// ---------------------------------------------------------------------------
// The laws
// ---------------------------------------------------------------------------

/// Two values with one key are alike.
pub proof fn lemma_key_tells(a: ValV, b: ValV)
    requires
        keying::stable_key(a) == keying::stable_key(b),
    ensures
        alike(a, b),
    decreases a,
{
    broadcast use vstd::seq_lib::group_to_multiset_ensures;

    lemma_key_apart(a, b);
    lemma_marks_tell(a, b);
    match (a, b) {
        (ValV::Boolean(x), ValV::Boolean(y)) => {
            reveal_strlit("true");
            reveal_strlit("false");
            assert(functions::bool_text(x)[0] == functions::bool_text(y)[0]);
        },
        (ValV::Integer(x), ValV::Integer(y)) => lemma_apart_int(x as int, y as int),
        (ValV::Float(x), ValV::Float(y)) => {
            lemma_apart_nat(number::one_zero(x) as nat, number::one_zero(y) as nat);
        },
        (ValV::Str(x), ValV::Str(y)) => lemma_apart_sized(x, y),
        (ValV::List(x), ValV::List(y)) => {
            lemma_lists_apart(x, y);
            let u = keying::stable_keys(x);
            let v = keying::stable_keys(y);
            assert(u.len() == x.len() && v.len() == y.len());
            assert forall|i: int| 0 <= i < x.len() implies alike(#[trigger] x[i], y[i]) by {
                assert(u[i] == v[i]);
                lemma_key_tells(x[i], y[i]);
            }
        },
        (ValV::Dict(m), ValV::Dict(n)) => {
            lemma_maps_apart(m, n);
            let u = keying::stable_entries(m);
            let v = keying::stable_entries(n);
            arrange::lemma_arranged_same_items(u, arrange::text_after());
            arrange::lemma_arranged_same_items(v, arrange::text_after());
            assert(u.len() == m.len() && v.len() == n.len());
            assert forall|i: int| 0 <= i < m.len() implies exists|j: int|
                0 <= j < n.len() && n[j].0 == (#[trigger] m[i]).0 && alike(
                    m[i].1,
                    (#[trigger] n[j]).1,
                ) by {
                assert(u.contains(u[i]));
                assert(u.to_multiset().count(u[i]) > 0);
                assert(v.contains(u[i]));
                let j = choose|j: int| 0 <= j < v.len() && v[j] == u[i];
                let (k, l) = (keying::sized(m[i].0), keying::sized(n[j].0));
                let (x, y) = (keying::stable_key(m[i].1), keying::stable_key(n[j].1));
                assert(u[i] == k + x && v[j] == l + y);
                lemma_apart_sized(m[i].0, n[j].0);
                lemma_apart_split(k, l, x, y);
                lemma_key_tells(m[i].1, n[j].1);
            }
        },
        (ValV::Node(x), ValV::Node(y)) => lemma_apart_nat(x.id as nat, y.id as nat),
        (ValV::Relationship(x), ValV::Relationship(y)) => {
            lemma_apart_nat(x.id as nat, y.id as nat);
        },
        (ValV::Path(x), ValV::Path(y)) => lemma_paths_apart(a, b),
        (ValV::Date(x), ValV::Date(y)) => lemma_apart_int(x as int, y as int),
        (ValV::Timestamp(s, n), ValV::Timestamp(t, m)) => {
            lemma_apart_int(s as int, t as int);
            lemma_apart_nat(n as nat, m as nat);
            lemma_apart_split(
                text::int_text(s as int) + ";"@,
                text::int_text(t as int) + ";"@,
                text::nat_text(n as nat) + ";"@,
                text::nat_text(m as nat) + ";"@,
            );
        },
        _ => {},
    }
}

/// The order of texts in which one text does not come after another.
spec fn up_to() -> spec_fn(Seq<char>, Seq<char>) -> bool {
    |a: Seq<char>, b: Seq<char>| text::text_order(a, b) != Order::Greater
}

proof fn lemma_up_to()
    ensures
        relations::total_ordering(up_to()),
        arrange::orders(arrange::text_after(), |x: Seq<char>| true),
{
    let leq = up_to();
    let after = arrange::text_after();
    assert forall|a: Seq<char>| #[trigger] leq(a, a) by {
        text::lemma_text_order(a, a);
    }
    assert forall|a: Seq<char>, b: Seq<char>| #[trigger] leq(a, b) && #[trigger] leq(b, a) implies a
        == b by {
        text::lemma_text_order(a, b);
    }
    assert forall|a: Seq<char>, b: Seq<char>, c: Seq<char>| #[trigger]
        leq(a, b) && #[trigger] leq(b, c) implies leq(a, c) by {
        lemma_up_to_through(a, b, c);
    }
    assert forall|a: Seq<char>, b: Seq<char>| #[trigger] leq(a, b) || leq(b, a) by {
        text::lemma_text_order(a, b);
    }
    assert forall|a: Seq<char>, b: Seq<char>| #[trigger] after(a, b) implies !after(b, a) by {
        text::lemma_text_order(a, b);
    }
    assert forall|a: Seq<char>, b: Seq<char>, c: Seq<char>|
        !(#[trigger] after(a, b)) && !(#[trigger] after(b, c)) implies !after(a, c) by {
        lemma_up_to_through(a, b, c);
    }
}

proof fn lemma_up_to_through(a: Seq<char>, b: Seq<char>, c: Seq<char>)
    requires
        text::text_order(a, b) != Order::Greater,
        text::text_order(b, c) != Order::Greater,
    ensures
        text::text_order(a, c) != Order::Greater,
{
    text::lemma_text_order(a, b);
    text::lemma_text_order(b, c);
    text::lemma_text_order(a, c);
    if a != b && b != c {
        text::lemma_text_order_through(a, b, c);
    }
}

/// Texts that are the same but for their order are sorted alike.
proof fn lemma_sorted_alike(u: Seq<Seq<char>>, v: Seq<Seq<char>>)
    requires
        u.to_multiset() == v.to_multiset(),
    ensures
        arrange::arranged(u, arrange::text_after()) == arrange::arranged(
            v,
            arrange::text_after(),
        ),
{
    let after = arrange::text_after();
    let x = arrange::arranged(u, after);
    let y = arrange::arranged(v, after);
    lemma_up_to();
    arrange::lemma_arranged_same_items(u, after);
    arrange::lemma_arranged_same_items(v, after);
    arrange::lemma_arranged_in_order(u, after, |t: Seq<char>| true);
    arrange::lemma_arranged_in_order(v, after, |t: Seq<char>| true);
    assert forall|i: int, j: int| 0 <= i < j < x.len() implies #[trigger] up_to()(x[i], x[j]) by {
        assert(!after(x[i], x[j]));
    }
    assert forall|i: int, j: int| 0 <= i < j < y.len() implies #[trigger] up_to()(y[i], y[j]) by {
        assert(!after(y[i], y[j]));
    }
    vstd::seq_lib::lemma_sorted_unique(x, y, up_to());
}

/// As many different texts as another list has, all of which are in it, are
/// the texts of that list.
proof fn lemma_same_texts(u: Seq<Seq<char>>, v: Seq<Seq<char>>)
    requires
        u.len() == v.len(),
        u.no_duplicates(),
        forall|i: int| 0 <= i < u.len() ==> v.contains(#[trigger] u[i]),
    ensures
        u.to_multiset() == v.to_multiset(),
    decreases u.len(),
{
    broadcast use vstd::seq_lib::group_to_multiset_ensures;

    if u.len() == 0 {
        assert(u =~= v);
    } else {
        let x = u.last();
        assert(v.contains(u[u.len() - 1]));
        let j = choose|j: int| 0 <= j < v.len() && v[j] == x;
        let w = v.remove(j);
        let t = u.drop_last();
        assert forall|i: int| 0 <= i < t.len() implies w.contains(#[trigger] t[i]) by {
            assert(v.contains(u[i]));
            let k = choose|k: int| 0 <= k < v.len() && v[k] == u[i];
            assert(u[i] != u[u.len() - 1]);
            assert(k != j);
            if k < j {
                assert(w[k] == t[i]);
            } else {
                assert(w[k - 1] == t[i]);
            }
        }
        lemma_same_texts(t, w);
        assert(u =~= t.push(x));
        assert(v =~= w.insert(j, x));
        assert(v.to_multiset() =~= w.to_multiset().insert(x));
        assert(u.to_multiset() =~= t.to_multiset().insert(x));
    }
}

/// Two values that are alike have one key.
pub proof fn lemma_alike_key(a: ValV, b: ValV)
    requires
        alike(a, b),
        plainly_keyed(a),
        plainly_keyed(b),
    ensures
        keying::stable_key(a) == keying::stable_key(b),
    decreases a,
{
    match (a, b) {
        (ValV::List(x), ValV::List(y)) => {
            let u = keying::stable_keys(x);
            let v = keying::stable_keys(y);
            assert forall|i: int| 0 <= i < x.len() implies u[i] == v[i] by {
                assert(alike(x[i], y[i]));
                lemma_alike_key(x[i], y[i]);
            }
            assert(u =~= v);
        },
        (ValV::Dict(m), ValV::Dict(n)) => {
            let u = keying::stable_entries(m);
            let v = keying::stable_entries(n);
            assert forall|i: int| 0 <= i < u.len() implies v.contains(#[trigger] u[i]) by {
                let e = m[i];
                let j = choose|j: int|
                    0 <= j < n.len() && n[j].0 == m[i].0 && alike(m[i].1, (#[trigger] n[j]).1);
                lemma_alike_key(m[i].1, n[j].1);
                assert(v[j] == u[i]);
            }
            assert forall|i: int, j: int| 0 <= i < u.len() && 0 <= j < u.len() && i != j implies u[i]
                != u[j] by {
                assert(m[i].0 != m[j].0);
                lemma_apart_sized(m[i].0, m[j].0);
                if u[i] == u[j] {
                    lemma_apart_split(
                        keying::sized(m[i].0),
                        keying::sized(m[j].0),
                        keying::stable_key(m[i].1),
                        keying::stable_key(m[j].1),
                    );
                }
            }
            lemma_same_texts(u, v);
            lemma_sorted_alike(u, v);
        },
        _ => {},
    }
}

/// Several values have the key of others just where they are alike, one by
/// one.
pub proof fn lemma_row_key(a: Seq<ValV>, b: Seq<ValV>)
    ensures
        keying::row_key(a) == keying::row_key(b) && a.len() == b.len() ==> all_alike(a, b),
        all_alike(a, b) && (forall|i: int| 0 <= i < a.len() ==> plainly_keyed(#[trigger] a[i])) && (
        forall|i: int| 0 <= i < b.len() ==> plainly_keyed(#[trigger] b[i])) ==> keying::row_key(a)
            == keying::row_key(b),
{
    let u = keying::stable_keys(a);
    let v = keying::stable_keys(b);
    if keying::row_key(a) == keying::row_key(b) && a.len() == b.len() {
        relex::lemma_strung(u, "\0"@);
        relex::lemma_strung(v, "\0"@);
        assert forall|i: int, j: int| 0 <= i < u.len() && 0 <= j < v.len() implies apart(
            #[trigger] u[i],
            #[trigger] v[j],
        ) by {
            lemma_key_apart(a[i], b[j]);
        }
        lemma_strung_tells(u, v, "\0"@);
        assert forall|i: int| 0 <= i < a.len() implies alike(#[trigger] a[i], b[i]) by {
            assert(u[i] == v[i]);
            lemma_key_tells(a[i], b[i]);
        }
    }
    if all_alike(a, b) && (forall|i: int| 0 <= i < a.len() ==> plainly_keyed(#[trigger] a[i])) && (
    forall|i: int| 0 <= i < b.len() ==> plainly_keyed(#[trigger] b[i])) {
        assert forall|i: int| 0 <= i < a.len() implies u[i] == v[i] by {
            assert(alike(a[i], b[i]));
            lemma_alike_key(a[i], b[i]);
        }
        assert(u =~= v);
    }
}

/// As many texts that are apart, with separators between them, tell their
/// texts.
proof fn lemma_strung_tells(a: Seq<Seq<char>>, b: Seq<Seq<char>>, sep: Seq<char>)
    requires
        a.len() == b.len(),
        forall|i: int, j: int|
            0 <= i < a.len() && 0 <= j < b.len() ==> apart(#[trigger] a[i], #[trigger] b[j]),
        relex::strung(a, sep) == relex::strung(b, sep),
    ensures
        a == b,
    decreases a.len(),
{
    if a.len() == 0 {
        assert(a =~= b);
    } else if a.len() == 1 {
        assert(a =~= b);
    } else {
        let ra = a.skip(1);
        let rb = b.skip(1);
        let x = relex::strung(ra, sep);
        let y = relex::strung(rb, sep);
        assert(a[0] + sep + x =~= a[0] + (sep + x));
        assert(b[0] + sep + y =~= b[0] + (sep + y));
        assert(apart(a[0], b[0]));
        lemma_apart_split(a[0], b[0], sep + x, sep + y);
        lemma_apart_len(sep, sep);
        lemma_apart_split(sep, sep, x, y);
        assert forall|i: int, j: int| 0 <= i < ra.len() && 0 <= j < rb.len() implies apart(
            #[trigger] ra[i],
            #[trigger] rb[j],
        ) by {
            assert(apart(a[i + 1], b[j + 1]));
        }
        lemma_strung_tells(ra, rb, sep);
        assert forall|i: int| 0 <= i < a.len() implies a[i] == b[i] by {
            if i > 0 {
                assert(ra[i - 1] == a[i] && rb[i - 1] == b[i]);
            }
        }
        assert(a =~= b);
    }
}

} // verus!
