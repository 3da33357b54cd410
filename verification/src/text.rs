//! Text: strings as sequences of characters, and the operations on them that
//! queries, keys and messages are built from.
use vstd::prelude::*;
use vstd::string::*;

verus! {

/// The result of comparing two values that can be ordered.
#[derive(Debug, Clone, Copy, PartialEq, Eq, Structural)]
pub enum Order {
    Less,
    Equal,
    Greater,
}

impl Order {
    /// The order with its operands exchanged.
    pub open spec fn flipped(self) -> Order {
        match self {
            Order::Less => Order::Greater,
            Order::Equal => Order::Equal,
            Order::Greater => Order::Less,
        }
    }

    pub fn flip(self) -> (r: Order)
        ensures
            r == self.flipped(),
    {
        match self {
            Order::Less => Order::Greater,
            Order::Equal => Order::Equal,
            Order::Greater => Order::Less,
        }
    }
}

// ---------------------------------------------------------------------------
// Characters and strings
// ---------------------------------------------------------------------------

/// `String::push`: the string grows by one character at its end.
#[verifier::external_body]
pub(crate) fn push_char(s: &mut String, c: char)
    ensures
        final(s)@ == old(s)@.push(c),
{
    s.push(c)
}

/// `char::from_u32`: a code point below 0x110000 that is no surrogate is a
/// character with that number, and nothing else is one.
#[verifier::external_body]
pub(crate) fn char_of_code(code: u32) -> (r: Option<char>)
    ensures
        r is Some <==> (code < 0xD800 || 0xE000 <= code < 0x110000),
        r matches Some(c) ==> c as u32 == code,
{
    char::from_u32(code)
}

/// The characters of a string, in order.
pub fn chars_of(s: &str) -> (v: Vec<char>)
    ensures
        v@ == s@,
{
    let mut v: Vec<char> = Vec::new();
    for c in it: s.chars()
        invariant
            it.seq() == s@,
            v@ == it.seq().take(it.index() as int),
    {
        v.push(c);
        proof {
            assert(it.seq().take(it.index() as int + 1) =~= it.seq().take(it.index() as int).push(c));
        }
    }
    proof {
        assert(s@.take(s@.len() as int) =~= s@);
    }
    v
}

/// The string with the given characters.
pub fn text_of(v: &Vec<char>) -> (s: String)
    ensures
        s@ == v@,
{
    let mut s = String::new();
    let mut i: usize = 0;
    while i < v.len()
        invariant
            i <= v.len(),
            s@ == v@.take(i as int),
        decreases v.len() - i,
    {
        push_char(&mut s, v[i]);
        proof {
            assert(v@.take(i as int + 1) =~= v@.take(i as int).push(v@[i as int]));
        }
        i += 1;
    }
    proof {
        assert(v@.take(v@.len() as int) =~= v@);
    }
    s
}

/// Whether two strings hold the same characters in the same order.
pub fn same_text(a: &str, b: &str) -> (r: bool)
    ensures
        r == (a@ == b@),
{
    let x = a.as_bytes();
    let y = b.as_bytes();
    proof {
        vstd::utf8::encode_utf8_decode_utf8(a@);
        vstd::utf8::encode_utf8_decode_utf8(b@);
        assert(x@ == y@ <==> a@ == b@);
    }
    if x.len() != y.len() {
        return false;
    }
    let mut i: usize = 0;
    while i < x.len()
        invariant
            i <= x.len(),
            x@.len() == y@.len(),
            x@ == y@ <==> a@ == b@,
            forall|j: int| 0 <= j < i ==> #[trigger] x@[j] == y@[j],
        decreases x.len() - i,
    {
        if x[i] != y[i] {
            return false;
        }
        i += 1;
    }
    proof {
        assert(x@ =~= y@);
    }
    true
}

/// One string after another.
pub fn join2(a: &str, b: &str) -> (r: String)
    ensures
        r@ == a@ + b@,
{
    let mut r = a.to_owned();
    r.append(b);
    r
}

/// Three strings, one after another.
pub fn join3(a: &str, b: &str, c: &str) -> (r: String)
    ensures
        r@ == a@ + b@ + c@,
{
    let mut r = a.to_owned();
    r.append(b);
    r.append(c);
    r
}

// ---------------------------------------------------------------------------
// Decimal numerals
// ---------------------------------------------------------------------------

/// The character of a decimal digit.
pub open spec fn digit_char(d: int) -> char {
    (d + 48) as char
}

/// The decimal numeral of a natural number.
pub open spec fn nat_text(n: nat) -> Seq<char>
    decreases n,
{
    if n < 10 {
        seq![digit_char(n as int)]
    } else {
        nat_text(n / 10).push(digit_char((n % 10) as int))
    }
}

/// The decimal numeral of an integer, with a leading `-` where it is negative.
pub open spec fn int_text(i: int) -> Seq<char> {
    if i < 0 {
        seq!['-'] + nat_text((-i) as nat)
    } else {
        nat_text(i as nat)
    }
}

fn digit(d: u64) -> (c: char)
    requires
        d < 10,
    ensures
        c == digit_char(d as int),
{
    (d as u8 + 48u8) as char
}

fn push_nat(out: &mut String, n: u64)
    ensures
        final(out)@ == old(out)@ + nat_text(n as nat),
    decreases n,
{
    if n >= 10 {
        push_nat(out, n / 10);
    }
    let c = digit(n % 10);
    push_char(out, c);
    proof {
        if n >= 10 {
            assert(out@ =~= old(out)@ + nat_text((n / 10) as nat).push(c));
        } else {
            assert(out@ =~= old(out)@ + seq![c]);
        }
    }
}

/// The decimal numeral of an unsigned number.
pub fn u64_text(n: u64) -> (r: String)
    ensures
        r@ == nat_text(n as nat),
{
    let mut out = String::new();
    push_nat(&mut out, n);
    proof {
        assert(Seq::<char>::empty() + nat_text(n as nat) =~= nat_text(n as nat));
    }
    out
}

/// The decimal numeral of a signed number.
pub fn i64_text(i: i64) -> (r: String)
    ensures
        r@ == int_text(i as int),
{
    if i >= 0 {
        u64_text(i as u64)
    } else {
        let mut out = String::new();
        push_char(&mut out, '-');
        let m: u64 = if i == i64::MIN {
            0x8000_0000_0000_0000u64
        } else {
            (-i) as u64
        };
        push_nat(&mut out, m);
        proof {
            assert(out@ =~= seq!['-'] + nat_text((-(i as int)) as nat));
        }
        out
    }
}

/// The digits of a numeral in a radix, most significant first, as a number;
/// `None` where a character is no digit of that radix or there is none at all.
pub open spec fn digits_value(s: Seq<char>, radix: int) -> Option<int>
    decreases s.len(),
{
    if s.len() == 0 {
        None
    } else if s.len() == 1 {
        match digit_value(s[0]) {
            Some(d) => if d < radix { Some(d) } else { None },
            None => None,
        }
    } else {
        match (digits_value(s.drop_last(), radix), digit_value(s.last())) {
            (Some(v), Some(d)) => if d < radix { Some(v * radix + d) } else { None },
            _ => None,
        }
    }
}

/// The value of a hexadecimal digit.
pub open spec fn digit_value(c: char) -> Option<int> {
    if '0' <= c <= '9' {
        Some(c as int - 48)
    } else if 'a' <= c <= 'f' {
        Some(c as int - 87)
    } else if 'A' <= c <= 'F' {
        Some(c as int - 55)
    } else {
        None
    }
}

fn value_of_digit(c: char) -> (r: Option<u64>)
    ensures
        r is Some <==> digit_value(c) is Some,
        r matches Some(d) ==> digit_value(c) == Some(d as int) && d < 16,
{
    if '0' <= c && c <= '9' {
        Some(c as u64 - 48)
    } else if 'a' <= c && c <= 'f' {
        Some(c as u64 - 87)
    } else if 'A' <= c && c <= 'F' {
        Some(c as u64 - 55)
    } else {
        None
    }
}

/// A numeral that stays a numeral when a prefix of it is dropped: the value of
/// the whole is at least that of each prefix.
proof fn lemma_digits_prefix(s: Seq<char>, radix: int, n: int)
    requires
        2 <= radix,
        0 < n <= s.len(),
        digits_value(s, radix) is Some,
    ensures
        digits_value(s.take(n), radix) is Some,
        0 <= digits_value(s.take(n), radix)->0 <= digits_value(s, radix)->0,
    decreases s.len(),
{
    if n == s.len() {
        assert(s.take(n) =~= s);
        lemma_digits_nonneg(s, radix);
    } else {
        lemma_digits_prefix(s.drop_last(), radix, n);
        assert(s.drop_last().take(n) =~= s.take(n));
        let v = digits_value(s.drop_last(), radix)->0;
        lemma_digits_nonneg(s.drop_last(), radix);
        assert(v <= v * radix) by (nonlinear_arith)
            requires
                0 <= v,
                2 <= radix,
        ;
    }
}

/// A numeral with one digit more.
proof fn lemma_digits_step(s: Seq<char>, radix: int, n: int, v: int, d: int)
    requires
        0 <= n < s.len(),
        n > 0 ==> digits_value(s.take(n), radix) == Some(v),
        n == 0 ==> v == 0,
        digit_value(s[n]) == Some(d),
        d < radix,
    ensures
        digits_value(s.take(n + 1), radix) == Some(v * radix + d),
{
    let t = s.take(n + 1);
    assert(t.drop_last() =~= s.take(n));
    assert(t.last() == s[n]);
    if n == 0 {
        assert(v * radix == 0) by (nonlinear_arith)
            requires
                v == 0,
        ;
    }
}

proof fn lemma_digits_nonneg(s: Seq<char>, radix: int)
    requires
        2 <= radix,
        digits_value(s, radix) is Some,
    ensures
        digits_value(s, radix)->0 >= 0,
    decreases s.len(),
{
    if s.len() > 1 {
        lemma_digits_nonneg(s.drop_last(), radix);
        let v = digits_value(s.drop_last(), radix)->0;
        assert(0 <= v * radix) by (nonlinear_arith)
            requires
                0 <= v,
                2 <= radix,
        ;
    }
}

/// What reading a numeral as an unsigned number gives: `None` where it is no
/// numeral or exceeds `limit`.
pub open spec fn bounded_value(s: Seq<char>, radix: int, limit: int) -> Option<int> {
    match digits_value(s, radix) {
        Some(v) => if v <= limit { Some(v) } else { None },
        None => None,
    }
}

/// Reads the characters of `v` from `from` on as a numeral in `radix`.
pub fn read_digits(v: &Vec<char>, from: usize, radix: u64, limit: u64) -> (r: Option<u64>)
    requires
        from <= v.len(),
        2 <= radix <= 16,
    ensures
        match r {
            Some(n) => bounded_value(v@.skip(from as int), radix as int, limit as int) == Some(n as int),
            None => bounded_value(v@.skip(from as int), radix as int, limit as int) is None,
        },
{
    let ghost s = v@.skip(from as int);
    if from == v.len() {
        return None;
    }
    let mut acc: u128 = 0;
    let mut i: usize = from;
    while i < v.len()
        invariant
            from <= i <= v.len(),
            from < v.len(),
            2 <= radix <= 16,
            s == v@.skip(from as int),
            acc <= limit,
            i > from ==> digits_value(s.take(i - from), radix as int) == Some(acc as int),
            i == from ==> acc == 0,
        decreases v.len() - i,
    {
        let ghost n = i - from;
        let c = v[i];
        let d = value_of_digit(c);
        proof {
            assert(s.take(n + 1).last() == c);
            if digits_value(s, radix as int) is Some {
                lemma_digits_prefix(s, radix as int, n + 1);
            }
        }
        match d {
            Some(d) => {
                if d >= radix {
                    return None;
                }
                proof {
                    assert(acc * radix + d <= 0xffff_ffff_ffff_ffff * 16 + 16) by (nonlinear_arith)
                        requires
                            acc <= 0xffff_ffff_ffff_ffff,
                            radix <= 16,
                            d < 16,
                    ;
                }
                let next: u128 = acc * (radix as u128) + (d as u128);
                proof {
                    lemma_digits_step(s, radix as int, n, acc as int, d as int);
                }
                if next > limit as u128 {
                    return None;
                }
                acc = next;
            },
            None => {
                return None;
            },
        }
        i += 1;
    }
    proof {
        assert(s.take(v.len() - from) =~= s);
    }
    Some(acc as u64)
}

// ---------------------------------------------------------------------------
// Letter case
// ---------------------------------------------------------------------------

/// Every character is below 128.
pub open spec fn is_ascii_text(s: Seq<char>) -> bool {
    forall|i: int| 0 <= i < s.len() ==> (#[trigger] s[i]) as u32 <= 127
}

/// The lower case of an ASCII character.
pub open spec fn ascii_lower_char(c: char) -> char {
    if 'A' <= c <= 'Z' {
        ((c as u32 + 32) as u32) as char
    } else {
        c
    }
}

/// The upper case of an ASCII character.
pub open spec fn ascii_upper_char(c: char) -> char {
    if 'a' <= c <= 'z' {
        ((c as u32 - 32) as u32) as char
    } else {
        c
    }
}

/// What `str::to_lowercase` gives for a text with characters beyond ASCII.
pub uninterp spec fn unicode_lower(s: Seq<char>) -> Seq<char>;

/// What `str::to_uppercase` gives for a text with characters beyond ASCII.
pub uninterp spec fn unicode_upper(s: Seq<char>) -> Seq<char>;

/// The lower case of a text.
pub open spec fn lower_text(s: Seq<char>) -> Seq<char> {
    if is_ascii_text(s) {
        Seq::new(s.len(), |i: int| ascii_lower_char(s[i]))
    } else {
        unicode_lower(s)
    }
}

/// The upper case of a text.
pub open spec fn upper_text(s: Seq<char>) -> Seq<char> {
    if is_ascii_text(s) {
        Seq::new(s.len(), |i: int| ascii_upper_char(s[i]))
    } else {
        unicode_upper(s)
    }
}

/// What the `Debug` form of a `str` is: the text between double quotes, with
/// escapes.
pub uninterp spec fn escaped_text(s: Seq<char>) -> Seq<char>;

/// The `Debug` form of a `str`, as `format!` writes it; the result is
/// `escaped_text`. Which characters are escaped, and how, is left unsaid.
#[verifier::external_body]
pub(crate) fn escape_text(s: &str) -> (r: String)
    ensures
        r@ == escaped_text(s@),
{
    format!("{:?}", s)
}

/// `str::to_lowercase`: the letters `A` to `Z` become small and other ASCII
/// characters stay; for a text beyond ASCII the result is `unicode_lower`.
#[verifier::external_body]
pub(crate) fn to_lower(s: &str) -> (r: String)
    ensures
        is_ascii_text(s@) ==> r@ == Seq::new(s@.len(), |i: int| ascii_lower_char(s@[i])),
        !is_ascii_text(s@) ==> r@ == unicode_lower(s@),
{
    s.to_lowercase()
}

/// `str::to_uppercase`: the letters `a` to `z` become capital and other ASCII
/// characters stay; for a text beyond ASCII the result is `unicode_upper`.
#[verifier::external_body]
pub(crate) fn to_upper(s: &str) -> (r: String)
    ensures
        is_ascii_text(s@) ==> r@ == Seq::new(s@.len(), |i: int| ascii_upper_char(s@[i])),
        !is_ascii_text(s@) ==> r@ == unicode_upper(s@),
{
    s.to_uppercase()
}

/// The lower case of a text.
pub fn lowercase(s: &str) -> (r: String)
    ensures
        r@ == lower_text(s@),
{
    to_lower(s)
}

/// The upper case of a text.
pub fn uppercase(s: &str) -> (r: String)
    ensures
        r@ == upper_text(s@),
{
    to_upper(s)
}

// ---------------------------------------------------------------------------
// Order
// ---------------------------------------------------------------------------

/// The order of two texts: that of the first characters in which they differ,
/// and a text that is a prefix of another comes before it.
pub open spec fn text_order(a: Seq<char>, b: Seq<char>) -> Order {
    text_order_from(a, b, 0)
}

pub open spec fn text_order_from(a: Seq<char>, b: Seq<char>, i: int) -> Order
    decreases a.len() - i,
{
    if i >= a.len() {
        if i >= b.len() { Order::Equal } else { Order::Less }
    } else if i >= b.len() {
        Order::Greater
    } else if a[i] < b[i] {
        Order::Less
    } else if a[i] > b[i] {
        Order::Greater
    } else {
        text_order_from(a, b, i + 1)
    }
}

fn chars_order(x: &Vec<char>, y: &Vec<char>) -> (r: Order)
    ensures
        r == text_order(x@, y@),
{
    let mut i: usize = 0;
    while i < x.len() && i < y.len()
        invariant
            i <= x.len(),
            i <= y.len(),
            text_order(x@, y@) == text_order_from(x@, y@, i as int),
        decreases x.len() - i,
    {
        if x[i] < y[i] {
            return Order::Less;
        }
        if x[i] > y[i] {
            return Order::Greater;
        }
        i += 1;
    }
    if i < x.len() {
        Order::Greater
    } else if i < y.len() {
        Order::Less
    } else {
        Order::Equal
    }
}

/// Compares two texts.
pub fn order_text(a: &str, b: &str) -> (r: Order)
    ensures
        r == text_order(a@, b@),
{
    let x = chars_of(a);
    let y = chars_of(b);
    chars_order(&x, &y)
}

proof fn lemma_order_from(a: Seq<char>, b: Seq<char>, i: int)
    requires
        0 <= i,
        i <= a.len(),
        i <= b.len(),
        forall|j: int| 0 <= j < i ==> a[j] == b[j],
    ensures
        text_order_from(a, b, i) == Order::Equal ==> a =~= b,
        text_order_from(b, a, i) == text_order_from(a, b, i).flipped(),
    decreases a.len() - i,
{
    if i < a.len() && i < b.len() && a[i] == b[i] {
        lemma_order_from(a, b, i + 1);
    }
}

/// The order of texts is total and antisymmetric: exchanging the operands
/// flips it, and only equal texts compare as equal.
pub proof fn lemma_text_order(a: Seq<char>, b: Seq<char>)
    ensures
        text_order(b, a) == text_order(a, b).flipped(),
        text_order(a, b) == Order::Equal <==> a == b,
{
    lemma_order_from(a, b, 0);
    lemma_order_refl(a, 0);
}

/// The order of texts is transitive.
pub proof fn lemma_text_order_through(a: Seq<char>, b: Seq<char>, c: Seq<char>)
    requires
        text_order(a, b) == Order::Less,
        text_order(b, c) == Order::Less,
    ensures
        text_order(a, c) == Order::Less,
{
    lemma_order_through(a, b, c, 0);
}

proof fn lemma_order_through(a: Seq<char>, b: Seq<char>, c: Seq<char>, i: int)
    requires
        0 <= i,
        text_order_from(a, b, i) == Order::Less,
        text_order_from(b, c, i) == Order::Less,
    ensures
        text_order_from(a, c, i) == Order::Less,
    decreases a.len() - i,
{
    if i < a.len() && i < b.len() && i < c.len() && a[i] == b[i] && b[i] == c[i] {
        lemma_order_through(a, b, c, i + 1);
    }
}

proof fn lemma_order_refl(a: Seq<char>, i: int)
    requires
        0 <= i,
    ensures
        text_order_from(a, a, i) == Order::Equal,
    decreases a.len() - i,
{
    if i < a.len() {
        lemma_order_refl(a, i + 1);
    }
}

// ---------------------------------------------------------------------------
// Searching and splitting
// ---------------------------------------------------------------------------

/// `p` stands in `s` at position `i`.
pub open spec fn occurs_at(s: Seq<char>, p: Seq<char>, i: int) -> bool {
    &&& 0 <= i
    &&& i + p.len() <= s.len()
    &&& s.subrange(i, i + p.len()) == p
}

/// The least position from `i` on at which `p` stands in `s`.
pub open spec fn find_from(s: Seq<char>, p: Seq<char>, i: int) -> Option<int>
    decreases s.len() - i + 1,
{
    if i + p.len() > s.len() || i < 0 {
        None
    } else if occurs_at(s, p, i) {
        Some(i)
    } else {
        find_from(s, p, i + 1)
    }
}

fn stands_at(s: &Vec<char>, p: &Vec<char>, i: usize) -> (r: bool)
    requires
        i + p.len() <= s.len(),
    ensures
        r == occurs_at(s@, p@, i as int),
{
    let mut j: usize = 0;
    while j < p.len()
        invariant
            j <= p.len(),
            i + p.len() <= s.len(),
            forall|k: int| 0 <= k < j ==> s@[i + k] == p@[k],
        decreases p.len() - j,
    {
        if s[i + j] != p[j] {
            proof {
                assert(s@.subrange(i as int, i + p@.len())[j as int] != p@[j as int]);
            }
            return false;
        }
        j += 1;
    }
    proof {
        assert(s@.subrange(i as int, i + p@.len()) =~= p@);
    }
    true
}

fn find_chars(s: &Vec<char>, p: &Vec<char>, from: usize) -> (r: Option<usize>)
    requires
        from <= s.len(),
    ensures
        match r {
            Some(i) => find_from(s@, p@, from as int) == Some(i as int) && from <= i && i + p.len() <= s.len(),
            None => find_from(s@, p@, from as int) is None,
        },
{
    if p.len() > s.len() - from {
        return None;
    }
    let mut i: usize = from;
    while i <= s.len() - p.len()
        invariant
            from <= i <= s.len(),
            p.len() <= s.len(),
            i <= s.len() - p.len() + 1,
            find_from(s@, p@, from as int) == find_from(s@, p@, i as int),
        decreases s.len() - i + 1,
    {
        if stands_at(s, p, i) {
            return Some(i);
        }
        if i == s.len() {
            proof {
                assert(s@.subrange(i as int, i as int) =~= p@);
            }
            return None;
        }
        i += 1;
    }
    None
}

/// Whether `p` begins the text `s`.
pub open spec fn starts_with_text(s: Seq<char>, p: Seq<char>) -> bool {
    occurs_at(s, p, 0)
}

/// Whether `p` ends the text `s`.
pub open spec fn ends_with_text(s: Seq<char>, p: Seq<char>) -> bool {
    occurs_at(s, p, s.len() - p.len())
}

/// Whether `p` stands anywhere in the text `s`.
pub open spec fn contains_text(s: Seq<char>, p: Seq<char>) -> bool {
    find_from(s, p, 0) is Some
}

/// `contains_text` says that there is a position at which the text stands.
pub proof fn lemma_contains(s: Seq<char>, p: Seq<char>)
    ensures
        contains_text(s, p) <==> exists|i: int| occurs_at(s, p, i),
{
    lemma_find(s, p, 0);
}

proof fn lemma_find(s: Seq<char>, p: Seq<char>, from: int)
    requires
        0 <= from,
    ensures
        find_from(s, p, from) is Some <==> exists|i: int| from <= i && occurs_at(s, p, i),
    decreases s.len() - from + 1,
{
    if from + p.len() > s.len() {
    } else if occurs_at(s, p, from) {
    } else {
        lemma_find(s, p, from + 1);
        if exists|i: int| from <= i && occurs_at(s, p, i) {
            let i = choose|i: int| from <= i && occurs_at(s, p, i);
            assert(from + 1 <= i && occurs_at(s, p, i));
        }
    }
}

pub fn text_starts_with(s: &str, p: &str) -> (r: bool)
    ensures
        r == starts_with_text(s@, p@),
{
    let x = chars_of(s);
    let y = chars_of(p);
    y.len() <= x.len() && stands_at(&x, &y, 0)
}

pub fn text_ends_with(s: &str, p: &str) -> (r: bool)
    ensures
        r == ends_with_text(s@, p@),
{
    let x = chars_of(s);
    let y = chars_of(p);
    y.len() <= x.len() && stands_at(&x, &y, x.len() - y.len())
}

pub fn text_contains(s: &str, p: &str) -> (r: bool)
    ensures
        r == contains_text(s@, p@),
{
    let x = chars_of(s);
    let y = chars_of(p);
    find_chars(&x, &y, 0).is_some()
}

/// The pieces of `s` from `from` on, between successive occurrences of a
/// separator that is not empty.
pub open spec fn pieces_from(s: Seq<char>, sep: Seq<char>, from: int) -> Seq<Seq<char>>
    decreases s.len() - from,
{
    if sep.len() == 0 || from > s.len() {
        seq![]
    } else {
        match find_from(s, sep, from) {
            Some(i) => if from <= i && i + sep.len() <= s.len() {
                seq![s.subrange(from, i)] + pieces_from(s, sep, i + sep.len())
            } else {
                seq![]
            },
            None => seq![s.skip(from)],
        }
    }
}

/// The pieces into which a separator cuts a text. The empty separator stands
/// before, between and after all characters.
pub open spec fn split_pieces(s: Seq<char>, sep: Seq<char>) -> Seq<Seq<char>> {
    if sep.len() == 0 {
        seq![Seq::<char>::empty()] + Seq::new(s.len(), |i: int| seq![s[i]]) + seq![
            Seq::<char>::empty(),
        ]
    } else {
        pieces_from(s, sep, 0)
    }
}

/// The views of a list of strings.
pub open spec fn texts_view(v: Seq<String>) -> Seq<Seq<char>> {
    Seq::new(v.len(), |i: int| v[i]@)
}

fn piece(s: &Vec<char>, from: usize, to: usize) -> (r: String)
    requires
        from <= to <= s.len(),
    ensures
        r@ == s@.subrange(from as int, to as int),
{
    let mut r = String::new();
    let mut i: usize = from;
    while i < to
        invariant
            from <= i <= to <= s.len(),
            r@ == s@.subrange(from as int, i as int),
        decreases to - i,
    {
        push_char(&mut r, s[i]);
        proof {
            assert(s@.subrange(from as int, i + 1) =~= s@.subrange(from as int, i as int).push(s@[i as int]));
        }
        i += 1;
    }
    r
}

/// The part of a text between two character positions.
pub fn slice_text(s: &Vec<char>, from: usize, to: usize) -> (r: String)
    requires
        from <= to <= s.len(),
    ensures
        r@ == s@.subrange(from as int, to as int),
{
    piece(s, from, to)
}

/// Cuts a text at a separator.
pub fn split_text(s: &str, sep: &str) -> (r: Vec<String>)
    ensures
        texts_view(r@) == split_pieces(s@, sep@),
{
    let x = chars_of(s);
    let y = chars_of(sep);
    let mut out: Vec<String> = Vec::new();
    if y.len() == 0 {
        out.push(String::new());
        let mut i: usize = 0;
        while i < x.len()
            invariant
                i <= x.len(),
                texts_view(out@) == seq![Seq::<char>::empty()] + Seq::new(
                    i as nat,
                    |k: int| seq![x@[k]],
                ),
            decreases x.len() - i,
        {
            let c = piece(&x, i, i + 1);
            let ghost before = texts_view(out@);
            out.push(c);
            proof {
                assert(x@.subrange(i as int, i + 1) =~= seq![x@[i as int]]);
                assert(texts_view(out@) =~= before.push(seq![x@[i as int]]));
                assert(texts_view(out@) =~= seq![Seq::<char>::empty()] + Seq::new(
                    (i + 1) as nat,
                    |k: int| seq![x@[k]],
                ));
            }
            i += 1;
        }
        let ghost before = texts_view(out@);
        out.push(String::new());
        proof {
            assert(texts_view(out@) =~= before.push(Seq::<char>::empty()));
            assert(texts_view(out@) =~= split_pieces(s@, sep@));
        }
        return out;
    }
    let mut from: usize = 0;
    loop
        invariant_except_break
            from <= x.len(),
            y.len() > 0,
            texts_view(out@) + pieces_from(x@, y@, from as int) =~= pieces_from(x@, y@, 0),
        ensures
            texts_view(out@) =~= pieces_from(x@, y@, 0),
        decreases x.len() - from,
    {
        let ghost before = texts_view(out@);
        match find_chars(&x, &y, from) {
            Some(i) => {
                out.push(piece(&x, from, i));
                proof {
                    assert(texts_view(out@) =~= before.push(x@.subrange(from as int, i as int)));
                    assert(texts_view(out@) + pieces_from(x@, y@, i + y@.len()) =~= before + (seq![
                        x@.subrange(from as int, i as int),
                    ] + pieces_from(x@, y@, i + y@.len())));
                }
                from = i + y.len();
            },
            None => {
                out.push(piece(&x, from, x.len()));
                proof {
                    assert(x@.subrange(from as int, x@.len() as int) =~= x@.skip(from as int));
                    assert(texts_view(out@) =~= before.push(x@.skip(from as int)));
                    assert(before.push(x@.skip(from as int)) =~= before + seq![x@.skip(from as int)]);
                }
                break;
            },
        }
    }
    out
}

/// The texts of a list, one after another, with a separator between them.
pub open spec fn joined(parts: Seq<Seq<char>>, sep: Seq<char>) -> Seq<char>
    decreases parts.len(),
{
    if parts.len() == 0 {
        seq![]
    } else if parts.len() == 1 {
        parts[0]
    } else {
        joined(parts.drop_last(), sep) + sep + parts.last()
    }
}

/// Joins texts with a separator between them.
pub fn join_texts(parts: &Vec<String>, sep: &str) -> (r: String)
    ensures
        r@ == joined(texts_view(parts@), sep@),
{
    let mut r = String::new();
    let mut i: usize = 0;
    while i < parts.len()
        invariant
            i <= parts.len(),
            r@ == joined(texts_view(parts@).take(i as int), sep@),
        decreases parts.len() - i,
    {
        proof {
            let t = texts_view(parts@).take(i as int + 1);
            assert(t.drop_last() =~= texts_view(parts@).take(i as int));
            assert(t.last() == parts@[i as int]@);
        }
        if i > 0 {
            r.append(sep);
        }
        r.append(parts[i].as_str());
        proof {
            if i == 0 {
                assert(r@ =~= parts@[0]@);
            }
        }
        i += 1;
    }
    proof {
        assert(texts_view(parts@).take(parts@.len() as int) =~= texts_view(parts@));
    }
    r
}

/// A text with every occurrence of `from` replaced by `to`.
pub open spec fn replaced(s: Seq<char>, from: Seq<char>, to: Seq<char>) -> Seq<char> {
    if from.len() == 0 {
        interleaved(s, to)
    } else {
        joined(split_pieces(s, from), to)
    }
}

/// `to` before, between and after all characters of `s`.
pub open spec fn interleaved(s: Seq<char>, to: Seq<char>) -> Seq<char>
    decreases s.len(),
{
    if s.len() == 0 {
        to
    } else {
        interleaved(s.drop_last(), to) + seq![s.last()] + to
    }
}

pub fn replace_text(s: &str, from: &str, to: &str) -> (r: String)
    ensures
        r@ == replaced(s@, from@, to@),
{
    if from.is_empty() {
        let x = chars_of(s);
        let mut r = to.to_owned();
        let mut i: usize = 0;
        while i < x.len()
            invariant
                i <= x.len(),
                r@ == interleaved(x@.take(i as int), to@),
            decreases x.len() - i,
        {
            proof {
                let t = x@.take(i as int + 1);
                assert(t.drop_last() =~= x@.take(i as int));
                assert(t.last() == x@[i as int]);
            }
            let ghost before = r@;
            push_char(&mut r, x[i]);
            r.append(to);
            proof {
                assert(r@ =~= before + seq![x@[i as int]] + to@);
            }
            i += 1;
        }
        proof {
            assert(x@.take(x@.len() as int) =~= x@);
        }
        r
    } else {
        let parts = split_text(s, from);
        join_texts(&parts, to)
    }
}

/// The characters that Unicode counts as white space.
pub open spec fn is_space(c: char) -> bool {
    ||| 0x09 <= c as u32 <= 0x0D
    ||| c as u32 == 0x20
    ||| c as u32 == 0x85
    ||| c as u32 == 0xA0
    ||| c as u32 == 0x1680
    ||| 0x2000 <= c as u32 <= 0x200A
    ||| c as u32 == 0x2028
    ||| c as u32 == 0x2029
    ||| c as u32 == 0x202F
    ||| c as u32 == 0x205F
    ||| c as u32 == 0x3000
}

pub fn is_space_char(c: char) -> (r: bool)
    ensures
        r == is_space(c),
{
    let n: u32 = c as u32;
    (0x09 <= n && n <= 0x0D) || n == 0x20 || n == 0x85 || n == 0xA0 || n == 0x1680 || (0x2000 <= n
        && n <= 0x200A) || n == 0x2028 || n == 0x2029 || n == 0x202F || n == 0x205F || n == 0x3000
}

/// A text without the white space at its front.
pub open spec fn trimmed_start(s: Seq<char>) -> Seq<char>
    decreases s.len(),
{
    if s.len() > 0 && is_space(s[0]) {
        trimmed_start(s.drop_first())
    } else {
        s
    }
}

/// A text without the white space at its end.
pub open spec fn trimmed_end(s: Seq<char>) -> Seq<char>
    decreases s.len(),
{
    if s.len() > 0 && is_space(s.last()) {
        trimmed_end(s.drop_last())
    } else {
        s
    }
}

/// A text without the white space at both ends.
pub open spec fn trimmed(s: Seq<char>) -> Seq<char> {
    trimmed_end(trimmed_start(s))
}

fn first_nonspace(x: &Vec<char>) -> (i: usize)
    ensures
        i <= x.len(),
        x@.skip(i as int) == trimmed_start(x@),
{
    let mut i: usize = 0;
    proof {
        assert(x@.skip(0) =~= x@);
    }
    while i < x.len()
        invariant
            i <= x.len(),
            trimmed_start(x@.skip(i as int)) == trimmed_start(x@),
        decreases x.len() - i,
    {
        if !is_space_char(x[i]) {
            return i;
        }
        proof {
            assert(x@.skip(i as int).drop_first() =~= x@.skip(i as int + 1));
        }
        i += 1;
    }
    i
}

fn last_nonspace(x: &Vec<char>, from: usize) -> (j: usize)
    requires
        from <= x.len(),
    ensures
        from <= j <= x.len(),
        x@.subrange(from as int, j as int) == trimmed_end(x@.skip(from as int)),
{
    let mut j: usize = x.len();
    proof {
        assert(x@.subrange(from as int, x@.len() as int) =~= x@.skip(from as int));
    }
    while j > from
        invariant
            from <= j <= x.len(),
            trimmed_end(x@.subrange(from as int, j as int)) == trimmed_end(x@.skip(from as int)),
        decreases j,
    {
        if !is_space_char(x[j - 1]) {
            return j;
        }
        proof {
            assert(x@.subrange(from as int, j as int).drop_last() =~= x@.subrange(from as int, j - 1));
        }
        j -= 1;
    }
    j
}

pub fn trim_text(s: &str) -> (r: String)
    ensures
        r@ == trimmed(s@),
{
    let x = chars_of(s);
    let i = first_nonspace(&x);
    let j = last_nonspace(&x, i);
    piece(&x, i, j)
}

pub fn trim_text_start(s: &str) -> (r: String)
    ensures
        r@ == trimmed_start(s@),
{
    let x = chars_of(s);
    let i = first_nonspace(&x);
    proof {
        assert(x@.subrange(i as int, x@.len() as int) =~= x@.skip(i as int));
    }
    piece(&x, i, x.len())
}

pub fn trim_text_end(s: &str) -> (r: String)
    ensures
        r@ == trimmed_end(s@),
{
    let x = chars_of(s);
    let j = last_nonspace(&x, 0);
    proof {
        assert(x@.skip(0) =~= x@);
    }
    piece(&x, 0, j)
}

/// Whether one of the texts of a list is the given one.
pub open spec fn has_text(v: Seq<Seq<char>>, t: Seq<char>) -> bool {
    exists|i: int| 0 <= i < v.len() && #[trigger] v[i] == t
}

pub fn list_has(v: &Vec<String>, t: &str) -> (r: bool)
    ensures
        r == has_text(texts_view(v@), t@),
{
    let mut i: usize = 0;
    while i < v.len()
        invariant
            i <= v.len(),
            forall|j: int| 0 <= j < i ==> (#[trigger] v@[j])@ != t@,
        decreases v.len() - i,
    {
        if same_text(v[i].as_str(), t) {
            proof {
                assert(texts_view(v@)[i as int] == t@);
            }
            return true;
        }
        i += 1;
    }
    proof {
        if has_text(texts_view(v@), t@) {
            let k = choose|k: int| 0 <= k < texts_view(v@).len() && #[trigger] texts_view(v@)[k] == t@;
            assert(v@[k]@ == t@);
        }
    }
    false
}

/// Whether two lists hold the same texts in the same order.
pub fn same_texts(a: &Vec<String>, b: &Vec<String>) -> (r: bool)
    ensures
        r == (texts_view(a@) == texts_view(b@)),
{
    if a.len() != b.len() {
        proof {
            assert(texts_view(a@).len() != texts_view(b@).len());
        }
        return false;
    }
    let mut i: usize = 0;
    while i < a.len()
        invariant
            i <= a.len(),
            a.len() == b.len(),
            forall|j: int| 0 <= j < i ==> (#[trigger] a@[j])@ == b@[j]@,
        decreases a.len() - i,
    {
        if !same_text(a[i].as_str(), b[i].as_str()) {
            proof {
                assert(texts_view(a@)[i as int] != texts_view(b@)[i as int]);
            }
            return false;
        }
        i += 1;
    }
    proof {
        assert(texts_view(a@) =~= texts_view(b@));
    }
    true
}

/// A copy of a list of strings.
pub fn clone_texts(v: &Vec<String>) -> (r: Vec<String>)
    ensures
        texts_view(r@) == texts_view(v@),
{
    let mut r: Vec<String> = Vec::new();
    let mut i: usize = 0;
    while i < v.len()
        invariant
            i <= v.len(),
            r@.len() == i,
            forall|j: int| 0 <= j < i ==> (#[trigger] r@[j])@ == v@[j]@,
        decreases v.len() - i,
    {
        r.push(v[i].clone());
        i += 1;
    }
    proof {
        assert(texts_view(r@) =~= texts_view(v@));
    }
    r
}

/// The value of a numeral with an optional sign, if it fits 64 bits.
pub open spec fn signed_value(s: Seq<char>, radix: int) -> Option<int> {
    if s.len() > 0 && s[0] == '-' {
        match bounded_value(s.skip(1), radix, 0x8000_0000_0000_0000) {
            Some(v) => Some(-v),
            None => None,
        }
    } else if s.len() > 0 && s[0] == '+' {
        bounded_value(s.skip(1), radix, 0x7fff_ffff_ffff_ffff)
    } else {
        bounded_value(s, radix, 0x7fff_ffff_ffff_ffff)
    }
}

/// Reads the characters of `v` from `from` on as a signed number.
pub fn read_signed(v: &Vec<char>, from: usize, radix: u64) -> (r: Option<i64>)
    requires
        from <= v.len(),
        2 <= radix <= 16,
    ensures
        match r {
            Some(n) => signed_value(v@.skip(from as int), radix as int) == Some(n as int),
            None => signed_value(v@.skip(from as int), radix as int) is None,
        },
{
    if from < v.len() && v[from] == '-' {
        proof {
            assert(v@.skip(from as int).skip(1) =~= v@.skip(from as int + 1));
        }
        match read_digits(v, from + 1, radix, 0x8000_0000_0000_0000) {
            Some(n) => if n == 0x8000_0000_0000_0000 {
                Some(i64::MIN)
            } else {
                Some(-(n as i64))
            },
            None => None,
        }
    } else if from < v.len() && v[from] == '+' {
        proof {
            assert(v@.skip(from as int).skip(1) =~= v@.skip(from as int + 1));
        }
        match read_digits(v, from + 1, radix, 0x7fff_ffff_ffff_ffff) {
            Some(n) => Some(n as i64),
            None => None,
        }
    } else {
        match read_digits(v, from, radix, 0x7fff_ffff_ffff_ffff) {
            Some(n) => Some(n as i64),
            None => None,
        }
    }
}

/// A numeral at the beginning of a text exceeds a limit.
pub open spec fn exceeds(s: Seq<char>, radix: int, limit: int) -> bool {
    exists|n: int|
        0 < n <= s.len() && (#[trigger] digits_value(s.take(n), radix) matches Some(v) && v
            > limit)
}

/// Why a text is no signed number of 64 bits. What comes first in it counts: a
/// character that is no digit, or the digit with which the number gets too
/// large.
pub open spec fn no_number_reason(s: Seq<char>, radix: int) -> Seq<char> {
    if s.len() == 0 {
        "cannot parse integer from empty string"@
    } else if s[0] == '-' {
        if exceeds(s.skip(1), radix, 0x8000_0000_0000_0000) {
            "number too small to fit in target type"@
        } else {
            "invalid digit found in string"@
        }
    } else if exceeds(
        if s[0] == '+' {
            s.skip(1)
        } else {
            s
        },
        radix,
        0x7fff_ffff_ffff_ffff,
    ) {
        "number too large to fit in target type"@
    } else {
        "invalid digit found in string"@
    }
}

fn has_excess(v: &Vec<char>, from: usize, radix: u64, limit: u64) -> (r: bool)
    requires
        from <= v.len(),
        2 <= radix <= 16,
    ensures
        r == exceeds(v@.skip(from as int), radix as int, limit as int),
{
    let ghost s = v@.skip(from as int);
    let mut acc: u128 = 0;
    let mut i: usize = from;
    while i < v.len()
        invariant
            from <= i <= v.len(),
            2 <= radix <= 16,
            s == v@.skip(from as int),
            acc <= limit,
            i > from ==> digits_value(s.take(i - from), radix as int) == Some(acc as int),
            i == from ==> acc == 0,
        decreases v.len() - i,
    {
        let ghost n = i - from;
        let c = v[i];
        proof {
            assert(s.take(n + 1).last() == c);
        }
        let d = match value_of_digit(c) {
            Some(d) => d,
            None => {
                proof {
                    lemma_no_excess(s, radix as int, limit as int, n, acc as int);
                }
                return false;
            },
        };
        if d >= radix {
            proof {
                lemma_no_excess(s, radix as int, limit as int, n, acc as int);
            }
            return false;
        }
        proof {
            assert(acc * radix + d <= 0xffff_ffff_ffff_ffff * 16 + 16) by (nonlinear_arith)
                requires
                    acc <= 0xffff_ffff_ffff_ffff,
                    radix <= 16,
                    d < 16,
            ;
            lemma_digits_step(s, radix as int, n, acc as int, d as int);
        }
        let next: u128 = acc * (radix as u128) + (d as u128);
        if next > limit as u128 {
            proof {
                assert(digits_value(s.take(n + 1), radix as int) == Some(next as int));
            }
            return true;
        }
        acc = next;
        i += 1;
    }
    proof {
        lemma_no_excess(s, radix as int, limit as int, v.len() - from, acc as int);
    }
    false
}

/// No numeral at the beginning of a text is too large where the longest one is
/// not.
proof fn lemma_no_excess(s: Seq<char>, radix: int, limit: int, n: int, v: int)
    requires
        2 <= radix,
        0 <= n <= s.len(),
        v <= limit,
        n > 0 ==> digits_value(s.take(n), radix) == Some(v),
        n < s.len() ==> digits_value(s.take(n + 1), radix) is None,
    ensures
        !exceeds(s, radix, limit),
{
    assert forall|k: int|
        0 < k <= s.len() && #[trigger] digits_value(
            s.take(k),
            radix,
        ) is Some implies digits_value(s.take(k), radix)->0 <= limit by {
        if k <= n {
            lemma_digits_prefix(s.take(n), radix, k);
            assert(s.take(n).take(k) =~= s.take(k));
        } else {
            lemma_digits_prefix(s.take(k), radix, n + 1);
            assert(s.take(k).take(n + 1) =~= s.take(n + 1));
        }
    }
}

/// Says why the characters of `v` from `from` on are no signed number.
pub fn explain_no_number(v: &Vec<char>, from: usize, radix: u64) -> (r: &'static str)
    requires
        from <= v.len(),
        2 <= radix <= 16,
    ensures
        r@ == no_number_reason(v@.skip(from as int), radix as int),
{
    if from == v.len() {
        return "cannot parse integer from empty string";
    }
    proof {
        assert(v@.skip(from as int).skip(1) =~= v@.skip(from as int + 1));
    }
    if v[from] == '-' {
        if has_excess(v, from + 1, radix, 0x8000_0000_0000_0000) {
            "number too small to fit in target type"
        } else {
            "invalid digit found in string"
        }
    } else {
        let digits = if v[from] == '+' {
            from + 1
        } else {
            from
        };
        if has_excess(v, digits, radix, 0x7fff_ffff_ffff_ffff) {
            "number too large to fit in target type"
        } else {
            "invalid digit found in string"
        }
    }
}

/// A text backwards.
pub fn reverse_text(s: &str) -> (r: String)
    ensures
        r@ == s@.reverse(),
{
    let x = chars_of(s);
    let mut r = String::new();
    let mut i: usize = x.len();
    while i > 0
        invariant
            i <= x.len(),
            r@ =~= x@.reverse().take(x@.len() - i),
        decreases i,
    {
        i -= 1;
        push_char(&mut r, x[i]);
        proof {
            assert(x@.reverse()[x@.len() - 1 - i] == x@[i as int]);
        }
    }
    proof {
        assert(x@.reverse().take(x@.len() as int) =~= x@.reverse());
    }
    r
}

} // verus!
