//! Texts whose tokens are known, whatever stands around them.
use crate::error::ErrV;
use crate::lexer::{self, CharClass, Sign, TokV, TokenV};
use crate::literals;
use crate::text;
use vstd::prelude::*;

verus! {

// ---------------------------------------------------------------------------
// Pieces of a text
// ---------------------------------------------------------------------------

/// A piece stands in a sequence at a place.
#[verifier::opaque]
pub open spec fn stands<T>(s: Seq<T>, i: int, p: Seq<T>) -> bool {
    &&& 0 <= i
    &&& i + p.len() <= s.len()
    &&& forall|k: int| 0 <= k < p.len() ==> s[i + k] == #[trigger] p[k]
}

pub proof fn lemma_stands_parts<T>(s: Seq<T>, i: int, a: Seq<T>, b: Seq<T>)
    requires
        stands(s, i, a + b),
    ensures
        stands(s, i, a),
        stands(s, i + a.len(), b),
{
    reveal(stands);
    assert forall|k: int| 0 <= k < a.len() implies s[i + k] == #[trigger] a[k] by {
        assert((a + b)[k] == a[k]);
    }
    assert forall|k: int| 0 <= k < b.len() implies s[i + a.len() + k] == #[trigger] b[k] by {
        assert((a + b)[a.len() + k] == b[k]);
    }
}

pub proof fn lemma_stands_at<T>(s: Seq<T>, i: int, p: Seq<T>, k: int)
    requires
        stands(s, i, p),
        0 <= k < p.len(),
    ensures
        0 <= i + k < s.len(),
        s[i + k] == p[k],
{
    reveal(stands);
    assert(p[k] == p[k]);
}

pub proof fn lemma_stands_range<T>(s: Seq<T>, i: int, p: Seq<T>)
    requires
        stands(s, i, p),
    ensures
        0 <= i,
        i + p.len() <= s.len(),
        s.subrange(i, i + p.len()) == p,
{
    reveal(stands);
    assert(s.subrange(i, i + p.len()) =~= p);
}

// ---------------------------------------------------------------------------
// The tokens of a piece
// ---------------------------------------------------------------------------

/// Tokens without their places.
pub open spec fn kinds(ts: Seq<TokenV>) -> Seq<TokV> {
    Seq::new(ts.len(), |i: int| ts[i].tok)
}

/// Between two places of a text the given tokens stand.
#[verifier::opaque]
pub open spec fn reads(s: Seq<char>, i: int, j: int, ks: Seq<TokV>) -> bool {
    exists|more: Seq<TokenV>| #[trigger]
        kinds(more) == ks && (forall|acc: Seq<TokenV>| #[trigger]
            lexer::tokens_from(s, i, acc) == lexer::tokens_from(s, j, acc + more))
}

#[verifier::spinoff_prover]
#[verifier::rlimit(50)]
proof fn lemma_reads_join(s: Seq<char>, i: int, j: int, k: int, a: Seq<TokV>, b: Seq<TokV>)
    requires
        reads(s, i, j, a),
        reads(s, j, k, b),
    ensures
        reads(s, i, k, a + b),
{
    reveal(reads);
    let x = choose|more: Seq<TokenV>| #[trigger]
        kinds(more) == a && (forall|acc: Seq<TokenV>| #[trigger]
            lexer::tokens_from(s, i, acc) == lexer::tokens_from(s, j, acc + more));
    let y = choose|more: Seq<TokenV>| #[trigger]
        kinds(more) == b && (forall|acc: Seq<TokenV>| #[trigger]
            lexer::tokens_from(s, j, acc) == lexer::tokens_from(s, k, acc + more));
    assert(kinds(x + y) =~= a + b);
    assert forall|acc: Seq<TokenV>| #[trigger] lexer::tokens_from(s, i, acc) == lexer::tokens_from(
        s,
        k,
        acc + (x + y),
    ) by {
        assert(acc + (x + y) =~= (acc + x) + y);
        assert(lexer::tokens_from(s, i, acc) == lexer::tokens_from(s, j, acc + x));
        assert(lexer::tokens_from(s, j, acc + x) == lexer::tokens_from(s, k, (acc + x) + y));
    }
}

/// One item of a text.
proof fn lemma_reads_item(s: Seq<char>, i: int, t: Option<TokV>, j: int)
    requires
        0 <= i < j <= s.len(),
        lexer::item_at(s, i) == Ok::<(Option<TokV>, int), ErrV>((t, j)),
    ensures
        reads(
            s,
            i,
            j,
            match t {
                Some(tok) => seq![tok],
                None => seq![],
            },
        ),
{
    reveal(reads);
    match t {
        Some(tok) => {
            let more = seq![TokenV { tok, at: i as usize }];
            assert(kinds(more) =~= seq![tok]);
            assert forall|acc: Seq<TokenV>| #[trigger]
                lexer::tokens_from(s, i, acc) == lexer::tokens_from(s, j, acc + more) by {
                assert(acc.push(TokenV { tok, at: i as usize }) =~= acc + more);
            }
        },
        None => {
            let more = Seq::<TokenV>::empty();
            assert(kinds(more) =~= seq![]);
            assert forall|acc: Seq<TokenV>| #[trigger]
                lexer::tokens_from(s, i, acc) == lexer::tokens_from(s, j, acc + more) by {
                assert(acc + more =~= acc);
            }
        },
    }
}

/// A character that ends a word or a numeral.
pub open spec fn ends_word(c: char) -> bool {
    !lexer::in_class(c, CharClass::WordPart) && c != '.'
}

/// No word or numeral goes on at a place.
pub open spec fn apart(s: Seq<char>, i: int) -> bool {
    i >= s.len() || (0 <= i && ends_word(s[i]))
}

/// A piece gives the given tokens wherever it stands.
#[verifier::opaque]
pub open spec fn free(p: Seq<char>, ks: Seq<TokV>) -> bool {
    forall|s: Seq<char>, i: int| #[trigger]
        stands(s, i, p) ==> reads(s, i, i + p.len(), ks)
}

/// A piece gives the given tokens wherever it stands and no word goes on
/// behind it.
#[verifier::opaque]
pub open spec fn bounded(p: Seq<char>, ks: Seq<TokV>) -> bool {
    forall|s: Seq<char>, i: int| #[trigger]
        stands(s, i, p) && apart(s, i + p.len()) ==> reads(s, i, i + p.len(), ks)
}

pub proof fn lemma_free_bounded(p: Seq<char>, ks: Seq<TokV>)
    requires
        free(p, ks),
    ensures
        bounded(p, ks),
{
    reveal(free);
    reveal(bounded);
}

pub proof fn lemma_free_free(a: Seq<char>, x: Seq<TokV>, b: Seq<char>, y: Seq<TokV>)
    requires
        free(a, x),
        free(b, y),
    ensures
        free(a + b, x + y),
{
    reveal(free);
    assert forall|s: Seq<char>, i: int| #[trigger] stands(s, i, a + b) implies reads(
        s,
        i,
        i + (a + b).len(),
        x + y,
    ) by {
        lemma_stands_parts(s, i, a, b);
        lemma_reads_join(s, i, i + a.len(), i + a.len() + b.len(), x, y);
    }
}

pub proof fn lemma_free_bounded_join(a: Seq<char>, x: Seq<TokV>, b: Seq<char>, y: Seq<TokV>)
    requires
        free(a, x),
        bounded(b, y),
    ensures
        bounded(a + b, x + y),
{
    reveal(free);
    reveal(bounded);
    assert forall|s: Seq<char>, i: int| #[trigger]
        stands(s, i, a + b) && apart(s, i + (a + b).len()) implies reads(
        s,
        i,
        i + (a + b).len(),
        x + y,
    ) by {
        lemma_stands_parts(s, i, a, b);
        lemma_reads_join(s, i, i + a.len(), i + a.len() + b.len(), x, y);
    }
}

pub proof fn lemma_bounded_free(a: Seq<char>, x: Seq<TokV>, b: Seq<char>, y: Seq<TokV>)
    requires
        bounded(a, x),
        free(b, y),
        b.len() > 0,
        ends_word(b[0]),
    ensures
        free(a + b, x + y),
{
    reveal(free);
    reveal(bounded);
    assert forall|s: Seq<char>, i: int| #[trigger] stands(s, i, a + b) implies reads(
        s,
        i,
        i + (a + b).len(),
        x + y,
    ) by {
        lemma_stands_parts(s, i, a, b);
        lemma_stands_at(s, i + a.len(), b, 0);
        lemma_reads_join(s, i, i + a.len(), i + a.len() + b.len(), x, y);
    }
}

pub proof fn lemma_free_nothing()
    ensures
        free(seq![], seq![]),
{
    reveal(free);
    assert forall|s: Seq<char>, i: int| #[trigger] stands(s, i, seq![]) implies reads(
        s,
        i,
        i + 0,
        seq![],
    ) by {
        reveal(reads);
        let more = Seq::<TokenV>::empty();
        assert(kinds(more) =~= seq![]);
        assert forall|acc: Seq<TokenV>| #[trigger]
            lexer::tokens_from(s, i, acc) == lexer::tokens_from(s, i + 0, acc + more) by {
            assert(acc + more =~= acc);
        }
    }
}

/// A blank or a line break gives no token.
pub proof fn lemma_free_blank(c: char)
    requires
        c == ' ' || c == '\n',
    ensures
        free(seq![c], seq![]),
{
    reveal(free);
    assert forall|s: Seq<char>, i: int| #[trigger] stands(s, i, seq![c]) implies reads(
        s,
        i,
        i + 1,
        seq![],
    ) by {
        lemma_stands_at(s, i, seq![c], 0);
        lemma_reads_item(s, i, None, i + 1);
    }
}

/// The sign that a character is, whatever follows it.
pub open spec fn plain_sign(c: char) -> Option<Sign> {
    if c == '(' {
        Some(Sign::LParen)
    } else if c == ')' {
        Some(Sign::RParen)
    } else if c == '[' {
        Some(Sign::LBrack)
    } else if c == ']' {
        Some(Sign::RBrack)
    } else if c == '{' {
        Some(Sign::LBrace)
    } else if c == '}' {
        Some(Sign::RBrace)
    } else if c == ',' {
        Some(Sign::Comma)
    } else if c == ':' {
        Some(Sign::Colon)
    } else if c == '-' {
        Some(Sign::Minus)
    } else {
        None
    }
}

pub proof fn lemma_free_sign(c: char)
    requires
        plain_sign(c) is Some,
    ensures
        free(seq![c], seq![TokV::Sign(plain_sign(c).unwrap())]),
        ends_word(c),
{
    reveal(free);
    assert forall|s: Seq<char>, i: int| #[trigger] stands(s, i, seq![c]) implies reads(
        s,
        i,
        i + 1,
        seq![TokV::Sign(plain_sign(c).unwrap())],
    ) by {
        lemma_stands_at(s, i, seq![c], 0);
        lemma_reads_item(s, i, Some(TokV::Sign(plain_sign(c).unwrap())), i + 1);
    }
}

/// The head of an arrow before a node.
pub proof fn lemma_free_head()
    ensures
        free(seq!['>', '('], seq![TokV::Sign(Sign::Gt), TokV::Sign(Sign::LParen)]),
{
    reveal(free);
    let p = seq!['>', '('];
    let ks = seq![TokV::Sign(Sign::Gt), TokV::Sign(Sign::LParen)];
    assert forall|s: Seq<char>, i: int| #[trigger] stands(s, i, p) implies reads(s, i, i + 2, ks) by {
        lemma_stands_at(s, i, p, 0);
        lemma_stands_at(s, i, p, 1);
        lemma_reads_item(s, i, Some(TokV::Sign(Sign::Gt)), i + 1);
        lemma_reads_item(s, i + 1, Some(TokV::Sign(Sign::LParen)), i + 2);
        lemma_reads_join(
            s,
            i,
            i + 1,
            i + 2,
            seq![TokV::Sign(Sign::Gt)],
            seq![TokV::Sign(Sign::LParen)],
        );
        assert(seq![TokV::Sign(Sign::Gt)] + seq![TokV::Sign(Sign::LParen)] =~= ks);
    }
}

// ---------------------------------------------------------------------------
// Words, numerals and strings
// ---------------------------------------------------------------------------

/// A text that is a word: letters, digits and underscores, no digit first.
pub open spec fn is_word(w: Seq<char>) -> bool {
    &&& w.len() > 0
    &&& lexer::in_class(w[0], CharClass::WordStart)
    &&& forall|k: int| 0 <= k < w.len() ==> lexer::in_class(#[trigger] w[k], CharClass::WordPart)
}

/// The token of a word.
pub open spec fn word_token(w: Seq<char>) -> TokV {
    TokV::Word(w, lexer::keyword(text::upper_text(w)))
}

proof fn lemma_run(s: Seq<char>, i: int, n: int, k: CharClass)
    requires
        0 <= i <= n <= s.len(),
        forall|m: int| i <= m < n ==> lexer::in_class(#[trigger] s[m], k),
        !lexer::class_at(s, n, k),
    ensures
        lexer::run_end(s, i, k) == n,
    decreases n - i,
{
    if i < n {
        assert(lexer::in_class(s[i], k));
        lemma_run(s, i + 1, n, k);
    }
}

pub proof fn lemma_bounded_word(w: Seq<char>)
    requires
        is_word(w),
    ensures
        bounded(w, seq![word_token(w)]),
{
    reveal(bounded);
    assert forall|s: Seq<char>, i: int| #[trigger]
        stands(s, i, w) && apart(s, i + w.len()) implies reads(
        s,
        i,
        i + w.len(),
        seq![word_token(w)],
    ) by {
        lemma_stands_range(s, i, w);
        lemma_stands_at(s, i, w, 0);
        let n = i + w.len();
        assert forall|m: int| i <= m < n implies lexer::in_class(
            #[trigger] s[m],
            CharClass::WordPart,
        ) by {
            lemma_stands_at(s, i, w, m - i);
            assert(lexer::in_class(w[m - i], CharClass::WordPart));
        }
        lemma_run(s, i, n, CharClass::WordPart);
        lemma_reads_item(s, i, Some(word_token(w)), n);
    }
}

/// A text of decimal digits.
pub open spec fn is_digits(d: Seq<char>) -> bool {
    &&& d.len() > 0
    &&& forall|k: int| 0 <= k < d.len() ==> '0' <= #[trigger] d[k] <= '9'
}

pub proof fn lemma_bounded_digits(d: Seq<char>)
    requires
        is_digits(d),
    ensures
        bounded(d, seq![TokV::Integer(d)]),
{
    reveal(bounded);
    assert forall|s: Seq<char>, i: int| #[trigger]
        stands(s, i, d) && apart(s, i + d.len()) implies reads(
        s,
        i,
        i + d.len(),
        seq![TokV::Integer(d)],
    ) by {
        lemma_stands_range(s, i, d);
        lemma_stands_at(s, i, d, 0);
        assert('0' <= d[0] <= '9');
        let n = i + d.len();
        assert forall|m: int| i <= m < n implies lexer::in_class(
            #[trigger] s[m],
            CharClass::Digit,
        ) by {
            lemma_stands_at(s, i, d, m - i);
            assert('0' <= d[m - i] <= '9');
        }
        if d.len() > 1 {
            lemma_stands_at(s, i, d, 1);
            assert('0' <= d[1] <= '9');
        }
        assert(!lexer::class_at(s, n, CharClass::Digit));
        lemma_run(s, i, n, CharClass::Digit);
        assert(lexer::numeral_at(s, i) == (TokV::Integer(d), n));
        lemma_reads_item(s, i, Some(TokV::Integer(d)), n);
    }
}

/// A decimal numeral with one digit or more on both sides of its point.
pub open spec fn is_decimal(d: Seq<char>) -> bool {
    exists|k: int| #[trigger] has_point(d, k)
}

/// The point of a decimal numeral is at a place.
pub open spec fn has_point(d: Seq<char>, k: int) -> bool {
    &&& 0 < k < d.len() - 1
    &&& d[k] == '.'
    &&& forall|j: int| 0 <= j < d.len() && j != k ==> '0' <= #[trigger] d[j] <= '9'
}

pub proof fn lemma_bounded_decimal(d: Seq<char>)
    requires
        is_decimal(d),
    ensures
        bounded(d, seq![TokV::Float(d)]),
{
    reveal(bounded);
    let p = choose|k: int| #[trigger] has_point(d, k);
    assert forall|s: Seq<char>, i: int| #[trigger]
        stands(s, i, d) && apart(s, i + d.len()) implies reads(
        s,
        i,
        i + d.len(),
        seq![TokV::Float(d)],
    ) by {
        lemma_stands_range(s, i, d);
        let n = i + d.len();
        assert forall|m: int| i <= m < n && m != i + p implies lexer::in_class(
            #[trigger] s[m],
            CharClass::Digit,
        ) by {
            lemma_stands_at(s, i, d, m - i);
            assert('0' <= d[m - i] <= '9');
        }
        lemma_stands_at(s, i, d, p);
        lemma_stands_at(s, i, d, 0);
        lemma_stands_at(s, i, d, 1);
        assert(d[1] == '.' || '0' <= d[1] <= '9');
        lemma_run(s, i, i + p, CharClass::Digit);
        assert(!lexer::class_at(s, n, CharClass::Digit));
        assert(lexer::in_class(s[i + p + 1], CharClass::Digit));
        lemma_run(s, i + p + 1, n, CharClass::Digit);
        assert(lexer::in_class(s[i], CharClass::Digit));
        assert(lexer::numeral_at(s, i) == (TokV::Float(d), n));
        lemma_reads_item(s, i, Some(TokV::Float(d)), n);
    }
}

proof fn lemma_written_end(s: Seq<char>, i: int, c: Seq<char>, k: int)
    requires
        0 <= k <= c.len(),
        stands(s, i, literals::written_from(c, k) + seq!['"']),
    ensures
        lexer::string_end(s, i, '"') == Some(i + literals::written_from(c, k).len() + 1),
    decreases c.len() - k,
{
    let all = literals::written_from(c, k) + seq!['"'];
    lemma_stands_at(s, i, all, 0);
    if k == c.len() {
        assert(all =~= seq!['"']);
    } else {
        let w = literals::written_char(c[k]);
        let rest = literals::written_from(c, k + 1) + seq!['"'];
        assert(all =~= w + rest);
        lemma_stands_parts(s, i, w, rest);
        lemma_written_end(s, i + w.len(), c, k + 1);
        lemma_stands_at(s, i, w, 0);
        if w.len() == 2 {
            lemma_stands_at(s, i, w, 1);
        }
        assert(lexer::string_end(s, i, '"') == lexer::string_end(s, i + w.len(), '"'));
    }
}

/// A text between quotes is one token.
pub proof fn lemma_free_quoted(c: Seq<char>)
    ensures
        free(literals::quoted(c), seq![TokV::Text(literals::quoted(c))]),
{
    reveal(free);
    let q = literals::quoted(c);
    assert forall|s: Seq<char>, i: int| #[trigger] stands(s, i, q) implies reads(
        s,
        i,
        i + q.len(),
        seq![TokV::Text(q)],
    ) by {
        lemma_stands_range(s, i, q);
        lemma_stands_at(s, i, q, 0);
        assert(q =~= seq!['"'] + (literals::written_from(c, 0) + seq!['"']));
        lemma_stands_parts(s, i, seq!['"'], literals::written_from(c, 0) + seq!['"']);
        lemma_written_end(s, i + 1, c, 0);
        lemma_reads_item(s, i, Some(TokV::Text(q)), i + q.len());
    }
}

/// The tokens of a whole text.
pub proof fn lemma_whole(p: Seq<char>, ks: Seq<TokV>) -> (ts: Seq<TokenV>)
    requires
        bounded(p, ks),
    ensures
        lexer::tokens_of(p) == Ok::<Seq<TokenV>, ErrV>(ts),
        kinds(ts) == ks,
{
    reveal(bounded);
    reveal(reads);
    assert(stands(p, 0, p)) by {
        reveal(stands);
    }
    assert(reads(p, 0, 0int + p.len(), ks));
    let more = choose|more: Seq<TokenV>| #[trigger]
        kinds(more) == ks && (forall|acc: Seq<TokenV>| #[trigger]
            lexer::tokens_from(p, 0, acc) == lexer::tokens_from(p, p.len() as int, acc + more));
    let none = Seq::<TokenV>::empty();
    assert(lexer::tokens_from(p, 0, none) == lexer::tokens_from(p, p.len() as int, none + more));
    assert(none + more =~= more);
    more
}

// ---------------------------------------------------------------------------
// Lists
// ---------------------------------------------------------------------------

/// Pieces one after another, with a separator between them.
pub open spec fn strung<T>(parts: Seq<Seq<T>>, sep: Seq<T>) -> Seq<T>
    decreases parts.len(),
{
    if parts.len() == 0 {
        seq![]
    } else if parts.len() == 1 {
        parts[0]
    } else {
        parts[0] + sep + strung(parts.skip(1), sep)
    }
}

pub proof fn lemma_strung(parts: Seq<Seq<char>>, sep: Seq<char>)
    ensures
        text::joined(parts, sep) == strung(parts, sep),
    decreases parts.len(),
{
    if parts.len() >= 2 {
        lemma_strung(parts.skip(1), sep);
        if parts.len() == 2 {
            let front = parts.drop_last();
            assert(text::joined(front, sep) == parts[0]);
            assert(strung(parts.skip(1), sep) == parts[1]);
            assert(text::joined(parts, sep) =~= strung(parts, sep));
        } else {
            let rest = parts.skip(1);
            lemma_strung(parts.drop_last(), sep);
            lemma_strung(rest.drop_last(), sep);
            assert(parts.drop_last().skip(1) =~= rest.drop_last());
            assert(parts.drop_last()[0] == parts[0]);
            assert(rest.last() == parts.last());
            assert(text::joined(rest, sep) == text::joined(rest.drop_last(), sep) + sep
                + parts.last());
            assert(strung(parts.drop_last(), sep) == parts[0] + sep + strung(
                rest.drop_last(),
                sep,
            ));
            assert(text::joined(parts, sep) =~= strung(parts, sep));
        }
    }
}

/// Pieces with a separator between them give their tokens with its tokens
/// between them.
pub proof fn lemma_bounded_strung(
    parts: Seq<Seq<char>>,
    toks: Seq<Seq<TokV>>,
    sep: Seq<char>,
    mark: Seq<TokV>,
)
    requires
        parts.len() == toks.len(),
        parts.len() > 0,
        forall|i: int| 0 <= i < parts.len() ==> bounded(#[trigger] parts[i], toks[i]),
        free(sep, mark),
        sep.len() > 0,
        ends_word(sep[0]),
    ensures
        bounded(strung(parts, sep), strung(toks, mark)),
    decreases parts.len(),
{
    assert(bounded(parts[0], toks[0]));
    if parts.len() > 1 {
        assert forall|i: int| 0 <= i < parts.skip(1).len() implies bounded(
            #[trigger] parts.skip(1)[i],
            toks.skip(1)[i],
        ) by {
            assert(bounded(parts[i + 1], toks[i + 1]));
        }
        lemma_bounded_strung(parts.skip(1), toks.skip(1), sep, mark);
        lemma_bounded_free(parts[0], toks[0], sep, mark);
        lemma_free_bounded_join(
            parts[0] + sep,
            toks[0] + mark,
            strung(parts.skip(1), sep),
            strung(toks.skip(1), mark),
        );
    }
}

// ---------------------------------------------------------------------------
// Decimal numerals
// ---------------------------------------------------------------------------

pub proof fn lemma_nat_digits(n: nat)
    ensures
        is_digits(text::nat_text(n)),
        text::digits_value(text::nat_text(n), 10) == Some(n as int),
    decreases n,
{
    let d = text::nat_text(n);
    if n >= 10 {
        lemma_nat_digits(n / 10);
        let before = text::nat_text(n / 10);
        let c = text::digit_char((n % 10) as int);
        assert(d.drop_last() =~= before);
        assert(d.last() == c);
        assert forall|k: int| 0 <= k < d.len() implies '0' <= #[trigger] d[k] <= '9' by {
            if k < before.len() {
                assert(d[k] == before[k]);
            }
        }
    }
}

pub proof fn lemma_nat_text_tells(a: nat, b: nat)
    requires
        text::nat_text(a) == text::nat_text(b),
    ensures
        a == b,
{
    lemma_nat_digits(a);
    lemma_nat_digits(b);
}

/// The numeral of a number within bounds has its value.
pub proof fn lemma_nat_value(n: nat)
    requires
        n <= i64::MAX,
    ensures
        literals::integer_value(text::nat_text(n)) == Ok::<int, ErrV>(n as int),
{
    lemma_nat_digits(n);
    let d = text::nat_text(n);
    assert('0' <= d[0] <= '9');
    if d.len() > 1 {
        assert('0' <= d[1] <= '9');
    }
}

} // verus!
