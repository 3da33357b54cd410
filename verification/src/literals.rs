//! Integers and strings as queries write them.
use crate::error::{CypherError, ErrV};
use crate::text::{
    self, char_of_code, chars_of, explain_no_number, join2, push_char, read_digits, read_signed,
    text_of,
};
use vstd::prelude::*;

verus! {

// ---------------------------------------------------------------------------
// Integers
// ---------------------------------------------------------------------------

/// A text begins with a zero and one of two letters.
pub open spec fn has_mark(s: Seq<char>, a: char, b: char) -> bool {
    s.len() >= 2 && s[0] == '0' && (s[1] == a || s[1] == b)
}

/// The value of a numeral without the sign in front of it: hexadecimal after
/// `0x`, octal after `0o`, decimal otherwise. A numeral can have a sign of its
/// own.
pub open spec fn magnitude(s: Seq<char>) -> Result<int, ErrV> {
    if has_mark(s, 'x', 'X') {
        match text::signed_value(s.skip(2), 16) {
            Some(v) => Ok(v),
            None => Err(ErrV::Parse("Invalid hex integer: "@ + text::no_number_reason(s.skip(2), 16))),
        }
    } else if has_mark(s, 'o', 'O') {
        match text::signed_value(s.skip(2), 8) {
            Some(v) => Ok(v),
            None => Err(ErrV::Parse("Invalid octal integer: "@ + text::no_number_reason(s.skip(2), 8))),
        }
    } else {
        match text::signed_value(s, 10) {
            Some(v) => Ok(v),
            None => Err(ErrV::Parse("Invalid integer: "@ + text::no_number_reason(s, 10))),
        }
    }
}

/// The value of an integer.
pub open spec fn integer_value(s: Seq<char>) -> Result<int, ErrV> {
    if s.len() > 0 && s[0] == '-' {
        match magnitude(s.skip(1)) {
            Ok(v) => if v == i64::MIN {
                Err(ErrV::Parse("Invalid integer: "@ + "number too large to fit in target type"@))
            } else {
                Ok(-v)
            },
            Err(x) => Err(x),
        }
    } else {
        magnitude(s)
    }
}

/// The view of an integer or an error.
pub open spec fn int_outcome(r: Result<i64, CypherError>) -> Result<int, ErrV> {
    match r {
        Ok(i) => Ok(i as int),
        Err(e) => Err(e@),
    }
}

fn starts_with_mark(v: &Vec<char>, from: usize, a: char, b: char) -> (r: bool)
    requires
        from <= v.len(),
    ensures
        r == has_mark(v@.skip(from as int), a, b),
{
    v.len() - from >= 2 && v[from] == '0' && (v[from + 1] == a || v[from + 1] == b)
}

fn read_magnitude(v: &Vec<char>, from: usize) -> (r: Result<i64, CypherError>)
    requires
        from <= v.len(),
    ensures
        int_outcome(r) == magnitude(v@.skip(from as int)),
{
    if starts_with_mark(v, from, 'x', 'X') {
        proof {
            assert(v@.skip(from as int).skip(2) =~= v@.skip(from as int + 2));
        }
        match read_signed(v, from + 2, 16) {
            Some(n) => Ok(n),
            None => Err(
                CypherError::ParseError(
                    join2("Invalid hex integer: ", explain_no_number(v, from + 2, 16)),
                ),
            ),
        }
    } else if starts_with_mark(v, from, 'o', 'O') {
        proof {
            assert(v@.skip(from as int).skip(2) =~= v@.skip(from as int + 2));
        }
        match read_signed(v, from + 2, 8) {
            Some(n) => Ok(n),
            None => Err(
                CypherError::ParseError(
                    join2("Invalid octal integer: ", explain_no_number(v, from + 2, 8)),
                ),
            ),
        }
    } else {
        match read_signed(v, from, 10) {
            Some(n) => Ok(n),
            None => Err(
                CypherError::ParseError(
                    join2("Invalid integer: ", explain_no_number(v, from, 10)),
                ),
            ),
        }
    }
}

/// Reads an integer.
pub fn read_integer(s: &str) -> (r: Result<i64, CypherError>)
    ensures
        int_outcome(r) == integer_value(s@),
{
    let v = chars_of(s);
    if v.len() > 0 && v[0] == '-' {
        let n = read_magnitude(&v, 1)?;
        if n == i64::MIN {
            Err(
                CypherError::ParseError(
                    join2("Invalid integer: ", "number too large to fit in target type"),
                ),
            )
        } else {
            Ok(-n)
        }
    } else {
        proof {
            assert(v@.skip(0) =~= v@);
        }
        read_magnitude(&v, 0)
    }
}

/// Reads an integer: decimal, hexadecimal after `0x`, or octal after `0o`.
pub fn parse_integer_value(s: &str) -> (r: Result<i64, CypherError>)
    requires
        s@.len() > 0 && s@[0] == '-' ==> magnitude(s@.skip(1)) != Ok::<int, ErrV>(i64::MIN as int),
    ensures
        int_outcome(r) == integer_value(s@),
{
    read_integer(s)
}

// ---------------------------------------------------------------------------
// Strings
// ---------------------------------------------------------------------------

/// The character that a letter behind a backslash stands for.
pub open spec fn escape_char(c: char) -> Option<char> {
    if c == 't' {
        Some('\t')
    } else if c == 'n' {
        Some('\n')
    } else if c == 'r' {
        Some('\r')
    } else if c == '\\' || c == '"' || c == '\'' || c == '/' {
        Some(c)
    } else {
        None
    }
}

fn find_escape(c: char) -> (r: Option<char>)
    ensures
        r == escape_char(c),
{
    if c == 't' {
        Some('\t')
    } else if c == 'n' {
        Some('\n')
    } else if c == 'r' {
        Some('\r')
    } else if c == '\\' || c == '"' || c == '\'' || c == '/' {
        Some(c)
    } else {
        None
    }
}

/// The number that hexadecimal digits give, with or without a plus sign.
pub open spec fn hex_code(h: Seq<char>) -> Option<int> {
    if h.len() > 0 && h[0] == '+' {
        text::bounded_value(h.skip(1), 16, 0xffff_ffff)
    } else {
        text::bounded_value(h, 16, 0xffff_ffff)
    }
}

/// A number that is a character.
pub open spec fn is_code(n: int) -> bool {
    0 <= n < 0xD800 || 0xE000 <= n < 0x110000
}

/// Where up to four characters from a place on end.
pub open spec fn four_end(s: Seq<char>, i: int) -> int {
    if i + 4 <= s.len() {
        i + 4
    } else {
        s.len() as int
    }
}

/// The characters that a string stands for, from the `i`-th of its inside on.
pub open spec fn unescaped(s: Seq<char>, i: int, acc: Seq<char>) -> Result<Seq<char>, ErrV>
    decreases s.len() - i,
{
    if i < 0 || i >= s.len() {
        Ok(acc)
    } else if s[i] != '\\' {
        unescaped(s, i + 1, acc.push(s[i]))
    } else if i + 1 >= s.len() {
        Ok(acc.push('\\'))
    } else if s[i + 1] == 'u' {
        let j = four_end(s, i + 2);
        let hex = s.subrange(i + 2, j);
        match hex_code(hex) {
            None => Err(ErrV::Parse("Invalid unicode escape: \\u"@ + hex)),
            Some(n) => if is_code(n) {
                unescaped(s, j, acc.push((n as u32) as char))
            } else {
                Err(ErrV::Parse("Invalid unicode codepoint: \\u"@ + hex))
            },
        }
    } else {
        match escape_char(s[i + 1]) {
            Some(c) => unescaped(s, i + 2, acc.push(c)),
            None => unescaped(s, i + 2, acc.push('\\').push(s[i + 1])),
        }
    }
}

/// The characters that a string with its quotes stands for.
pub open spec fn string_content(s: Seq<char>) -> Result<Seq<char>, ErrV> {
    if s.len() < 2 {
        Err(ErrV::Parse("Invalid string literal"@))
    } else {
        unescaped(s.subrange(1, s.len() - 1), 0, seq![])
    }
}

/// The view of a text or an error.
pub open spec fn text_outcome(r: Result<String, CypherError>) -> Result<Seq<char>, ErrV> {
    match r {
        Ok(s) => Ok(s@),
        Err(e) => Err(e@),
    }
}

fn read_hex(v: &Vec<char>) -> (r: Option<u64>)
    ensures
        match r {
            Some(n) => hex_code(v@) == Some(n as int) && n <= 0xffff_ffff,
            None => hex_code(v@) is None,
        },
{
    if v.len() > 0 && v[0] == '+' {
        read_digits(v, 1, 16, 0xffff_ffff)
    } else {
        proof {
            assert(v@.skip(0) =~= v@);
        }
        read_digits(v, 0, 16, 0xffff_ffff)
    }
}

fn copy_chars(v: &Vec<char>, from: usize, to: usize) -> (r: Vec<char>)
    requires
        from <= to <= v.len(),
    ensures
        r@ == v@.subrange(from as int, to as int),
{
    let mut r: Vec<char> = Vec::new();
    let mut i: usize = from;
    while i < to
        invariant
            from <= i <= to <= v.len(),
            r@ == v@.subrange(from as int, i as int),
        decreases to - i,
    {
        r.push(v[i]);
        i += 1;
        proof {
            assert(r@ =~= v@.subrange(from as int, i as int));
        }
    }
    r
}

fn read_code(hex: &Vec<char>) -> (r: Result<char, CypherError>)
    ensures
        match hex_code(hex@) {
            None => r matches Err(e) && e@ == ErrV::Parse("Invalid unicode escape: \\u"@ + hex@),
            Some(n) => if is_code(n) {
                r == Ok::<char, CypherError>((n as u32) as char)
            } else {
                r matches Err(e) && e@ == ErrV::Parse("Invalid unicode codepoint: \\u"@ + hex@)
            },
        },
{
    match read_hex(hex) {
        None => Err(
            CypherError::ParseError(
                join2("Invalid unicode escape: \\u", text_of(hex).as_str()),
            ),
        ),
        Some(n) => match char_of_code(n as u32) {
            Some(c) => {
                proof {
                    vstd::utf8::char_u32_cast(c, n as u32);
                }
                Ok(c)
            },
            None => Err(
                CypherError::ParseError(
                    join2("Invalid unicode codepoint: \\u", text_of(hex).as_str()),
                ),
            ),
        },
    }
}

/// Reads a string with its quotes.
pub fn read_string(v: &Vec<char>) -> (r: Result<String, CypherError>)
    ensures
        text_outcome(r) == string_content(v@),
{
    if v.len() < 2 {
        return Err(CypherError::ParseError("Invalid string literal".to_owned()));
    }
    let s = copy_chars(v, 1, v.len() - 1);
    let mut out = String::new();
    let mut i: usize = 0;
    while i < s.len()
        invariant
            i <= s.len(),
            v.len() >= 2,
            s@ == v@.subrange(1, v@.len() - 1),
            unescaped(s@, 0, seq![]) == unescaped(s@, i as int, out@),
        decreases s.len() - i,
    {
        if s[i] != '\\' {
            push_char(&mut out, s[i]);
            i += 1;
        } else if i + 1 >= s.len() {
            push_char(&mut out, '\\');
            i += 1;
        } else if s[i + 1] == 'u' {
            let j = if s.len() - (i + 2) >= 4 {
                i + 6
            } else {
                s.len()
            };
            let hex = copy_chars(&s, i + 2, j);
            let c = read_code(&hex)?;
            push_char(&mut out, c);
            i = j;
        } else {
            match find_escape(s[i + 1]) {
                Some(c) => push_char(&mut out, c),
                None => {
                    push_char(&mut out, '\\');
                    push_char(&mut out, s[i + 1]);
                },
            }
            i += 2;
        }
    }
    Ok(out)
}

/// A character that takes one byte.
pub open spec fn is_single(c: char) -> bool {
    c as u32 <= 127
}

/// Reads a string with its quotes, and puts the characters in it that its
/// escapes stand for.
pub fn parse_string_content(s: &str) -> (r: Result<String, CypherError>)
    requires
        s@.len() > 0 ==> is_single(s@[0]) && is_single(s@.last()),
    ensures
        text_outcome(r) == string_content(s@),
{
    let v = chars_of(s);
    read_string(&v)
}

// ---------------------------------------------------------------------------
// Writing strings
// ---------------------------------------------------------------------------

/// How a character is written in a string between double quotes.
pub open spec fn written_char(c: char) -> Seq<char> {
    if c == '\\' {
        seq!['\\', '\\']
    } else if c == '"' {
        seq!['\\', '"']
    } else if c == '\n' {
        seq!['\\', 'n']
    } else if c == '\r' {
        seq!['\\', 'r']
    } else if c == '\t' {
        seq!['\\', 't']
    } else {
        seq![c]
    }
}

/// How the characters of a text, from the `i`-th on, are written.
pub open spec fn written_from(s: Seq<char>, i: int) -> Seq<char>
    decreases s.len() - i,
{
    if i < 0 || i >= s.len() {
        seq![]
    } else {
        written_char(s[i]) + written_from(s, i + 1)
    }
}

/// A text between double quotes.
pub open spec fn quoted(s: Seq<char>) -> Seq<char> {
    seq!['"'] + written_from(s, 0) + seq!['"']
}

fn push_written(out: &mut String, c: char)
    ensures
        final(out)@ == old(out)@ + written_char(c),
{
    let ghost before = out@;
    if c == '\\' || c == '"' {
        push_char(out, '\\');
        push_char(out, c);
    } else if c == '\n' {
        push_char(out, '\\');
        push_char(out, 'n');
    } else if c == '\r' {
        push_char(out, '\\');
        push_char(out, 'r');
    } else if c == '\t' {
        push_char(out, '\\');
        push_char(out, 't');
    } else {
        push_char(out, c);
    }
    proof {
        assert(out@ =~= before + written_char(c));
    }
}

/// Writes a text between double quotes, so that a query gives it back.
pub fn quote_text(s: &str) -> (r: String)
    ensures
        r@ == quoted(s@),
{
    let v = chars_of(s);
    let mut out = String::new();
    push_char(&mut out, '"');
    let ghost head = seq!['"'];
    proof {
        assert(out@ =~= head);
    }
    let mut i: usize = 0;
    while i < v.len()
        invariant
            v@ == s@,
            i <= v.len(),
            head == seq!['"'],
            head + written_from(s@, 0) == out@ + written_from(s@, i as int),
        decreases v.len() - i,
    {
        let ghost before = out@;
        push_written(&mut out, v[i]);
        proof {
            assert(before + written_from(s@, i as int) =~= out@ + written_from(s@, i + 1));
        }
        i += 1;
    }
    proof {
        assert(out@ + written_from(s@, v@.len() as int) =~= out@);
    }
    let ghost body = out@;
    push_char(&mut out, '"');
    proof {
        assert(out@ =~= body + seq!['"']);
    }
    out
}

proof fn lemma_unescape_written(s: Seq<char>, i: int, pre: Seq<char>, acc: Seq<char>)
    requires
        0 <= i <= s.len(),
    ensures
        unescaped(pre + written_from(s, i), pre.len() as int, acc) == Ok::<Seq<char>, ErrV>(
            acc + s.skip(i),
        ),
    decreases s.len() - i,
{
    let all = pre + written_from(s, i);
    if i == s.len() {
        assert(acc + s.skip(i) =~= acc);
    } else {
        let w = written_char(s[i]);
        let next = pre + w;
        assert(all =~= next + written_from(s, i + 1));
        lemma_unescape_written(s, i + 1, next, acc.push(s[i]));
        assert(acc.push(s[i]) + s.skip(i + 1) =~= acc + s.skip(i));
        let n = pre.len() as int;
        assert(all[n] == w[0]);
        if w.len() == 2 {
            assert(all[n + 1] == w[1]);
        }
        assert(unescaped(all, n, acc) == unescaped(all, n + w.len(), acc.push(s[i])));
    }
}

/// A text that was written between quotes is read back.
pub proof fn lemma_quoted_read_back(s: Seq<char>)
    ensures
        string_content(quoted(s)) == Ok::<Seq<char>, ErrV>(s),
{
    let q = quoted(s);
    assert(q.subrange(1, q.len() - 1) =~= written_from(s, 0));
    lemma_unescape_written(s, 0, seq![], seq![]);
    assert(Seq::<char>::empty() + written_from(s, 0) =~= written_from(s, 0));
    assert(Seq::<char>::empty() + s.skip(0) =~= s);
}

} // verus!
