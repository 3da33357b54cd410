//! What a query needs from outside the library: floating-point arithmetic,
//! numerals of floating-point numbers, and the contents of files.
//!
//! The library decides what is asked and what becomes of each answer; the
//! program around it computes the answers.
use crate::text::same_text;
use vstd::prelude::*;

verus! {

/// An operation on two floating-point numbers.
#[derive(Debug, Clone, Copy, PartialEq, Eq, Structural)]
pub enum ArithOp {
    Add,
    Sub,
    Mul,
    Div,
    Rem,
    Pow,
    Atan2,
}

/// A function of one floating-point number.
#[derive(Debug, Clone, Copy, PartialEq, Eq, Structural)]
pub enum MathFn {
    Ceil,
    Floor,
    Round,
    Sqrt,
    Ln,
    Log10,
    Exp,
    Sin,
    Cos,
    Tan,
    Asin,
    Acos,
    Atan,
    Degrees,
    Radians,
    Cot,
    Haversin,
}

/// A question to the program around the library. Floating-point numbers are
/// given as their bits.
#[derive(Debug, PartialEq)]
pub enum Request {
    /// The result of an operation on two numbers.
    Arith(ArithOp, u64, u64),
    /// The value of a function of one number.
    Math(MathFn, u64),
    /// The number that a numeral denotes.
    ParseFloat(String),
    /// The shortest decimal numeral of a number, without an exponent.
    FormatFloat(u64),
    /// The decimal numeral of a number with one place behind the point.
    FormatTenths(u64),
    /// The shortest decimal numeral of a number, with a point or an exponent.
    DebugFloat(u64),
    /// The sum of numbers, in order.
    Sum(Vec<u64>),
    /// The arithmetic mean of numbers.
    Mean(Vec<u64>),
    /// The standard deviation of numbers: of a sample where the flag is set,
    /// else of the whole population.
    Stdev(Vec<u64>, bool),
    /// The percentile of ascending numbers, by interpolation.
    PercentileCont(Vec<u64>, u64),
    /// The given share of a highest index, rounded down.
    PercentileIndex(u64, u64),
    /// The contents of a file.
    ReadFile(String),
}

/// The view of a `Request`.
pub enum RequestV {
    Arith(ArithOp, u64, u64),
    Math(MathFn, u64),
    ParseFloat(Seq<char>),
    FormatFloat(u64),
    FormatTenths(u64),
    DebugFloat(u64),
    Sum(Seq<u64>),
    Mean(Seq<u64>),
    Stdev(Seq<u64>, bool),
    PercentileCont(Seq<u64>, u64),
    PercentileIndex(u64, u64),
    ReadFile(Seq<char>),
}

impl Request {
    pub open spec fn view(&self) -> RequestV {
        match self {
            Request::Arith(op, a, b) => RequestV::Arith(*op, *a, *b),
            Request::Math(f, a) => RequestV::Math(*f, *a),
            Request::ParseFloat(s) => RequestV::ParseFloat(s@),
            Request::FormatFloat(b) => RequestV::FormatFloat(*b),
            Request::FormatTenths(b) => RequestV::FormatTenths(*b),
            Request::DebugFloat(b) => RequestV::DebugFloat(*b),
            Request::Sum(v) => RequestV::Sum(v@),
            Request::Mean(v) => RequestV::Mean(v@),
            Request::Stdev(v, sample) => RequestV::Stdev(v@, *sample),
            Request::PercentileCont(v, p) => RequestV::PercentileCont(v@, *p),
            Request::PercentileIndex(p, n) => RequestV::PercentileIndex(*p, *n),
            Request::ReadFile(s) => RequestV::ReadFile(s@),
        }
    }
}

fn same_numbers(a: &Vec<u64>, b: &Vec<u64>) -> (r: bool)
    ensures
        r == (a@ == b@),
{
    if a.len() != b.len() {
        return false;
    }
    let mut i: usize = 0;
    while i < a.len()
        invariant
            a.len() == b.len(),
            i <= a.len(),
            forall|j: int| 0 <= j < i ==> a@[j] == b@[j],
        decreases a.len() - i,
    {
        if a[i] != b[i] {
            return false;
        }
        i += 1;
    }
    proof {
        assert(a@ =~= b@);
    }
    true
}

pub fn clone_numbers(v: &Vec<u64>) -> (r: Vec<u64>)
    ensures
        r@ == v@,
{
    let mut r: Vec<u64> = Vec::new();
    let mut i: usize = 0;
    while i < v.len()
        invariant
            i <= v.len(),
            r@ == v@.take(i as int),
        decreases v.len() - i,
    {
        r.push(v[i]);
        proof {
            assert(v@.take(i as int + 1) =~= v@.take(i as int).push(v@[i as int]));
        }
        i += 1;
    }
    proof {
        assert(v@.take(v@.len() as int) =~= v@);
    }
    r
}

impl Clone for Request {
    fn clone(&self) -> (r: Self)
        ensures
            r@ == self@,
    {
        match self {
            Request::Arith(op, a, b) => Request::Arith(*op, *a, *b),
            Request::Math(f, a) => Request::Math(*f, *a),
            Request::ParseFloat(s) => Request::ParseFloat(s.clone()),
            Request::FormatFloat(b) => Request::FormatFloat(*b),
            Request::FormatTenths(b) => Request::FormatTenths(*b),
            Request::DebugFloat(b) => Request::DebugFloat(*b),
            Request::Sum(v) => Request::Sum(clone_numbers(v)),
            Request::Mean(v) => Request::Mean(clone_numbers(v)),
            Request::Stdev(v, sample) => Request::Stdev(clone_numbers(v), *sample),
            Request::PercentileCont(v, p) => Request::PercentileCont(clone_numbers(v), *p),
            Request::PercentileIndex(p, n) => Request::PercentileIndex(*p, *n),
            Request::ReadFile(s) => Request::ReadFile(s.clone()),
        }
    }
}

impl Request {
    /// Whether two requests ask the same.
    pub fn same(&self, other: &Request) -> (r: bool)
        ensures
            r == (self@ == other@),
    {
        match (self, other) {
            (Request::Arith(o1, a1, b1), Request::Arith(o2, a2, b2)) => *o1 == *o2 && *a1 == *a2
                && *b1 == *b2,
            (Request::Math(f1, a1), Request::Math(f2, a2)) => *f1 == *f2 && *a1 == *a2,
            (Request::ParseFloat(s1), Request::ParseFloat(s2)) => same_text(s1.as_str(), s2.as_str()),
            (Request::FormatFloat(a1), Request::FormatFloat(a2)) => *a1 == *a2,
            (Request::FormatTenths(a1), Request::FormatTenths(a2)) => *a1 == *a2,
            (Request::DebugFloat(a1), Request::DebugFloat(a2)) => *a1 == *a2,
            (Request::Sum(v1), Request::Sum(v2)) => same_numbers(v1, v2),
            (Request::Mean(v1), Request::Mean(v2)) => same_numbers(v1, v2),
            (Request::Stdev(v1, s1), Request::Stdev(v2, s2)) => *s1 == *s2 && same_numbers(v1, v2),
            (Request::PercentileCont(v1, p1), Request::PercentileCont(v2, p2)) => *p1 == *p2
                && same_numbers(v1, v2),
            (Request::PercentileIndex(p1, n1), Request::PercentileIndex(p2, n2)) => *p1 == *p2 && *n1
                == *n2,
            (Request::ReadFile(s1), Request::ReadFile(s2)) => same_text(s1.as_str(), s2.as_str()),
            _ => false,
        }
    }
}

/// An answer from outside.
#[derive(Debug, PartialEq)]
pub enum Answer {
    /// The bits of a number.
    Float(u64),
    /// The numeral denotes no number.
    NoNumber,
    Text(String),
    Index(u64),
    Bytes(Vec<u8>),
    /// The file cannot be opened; the text says why.
    Failed(String),
    /// The file was opened and gave these bytes, and then reading failed; the
    /// text says why.
    Broken(Vec<u8>, String),
}

/// The view of an `Answer`.
pub enum AnswerV {
    Float(u64),
    NoNumber,
    Text(Seq<char>),
    Index(u64),
    Bytes(Seq<u8>),
    Failed(Seq<char>),
    Broken(Seq<u8>, Seq<char>),
}

impl Answer {
    pub open spec fn view(&self) -> AnswerV {
        match self {
            Answer::Float(b) => AnswerV::Float(*b),
            Answer::NoNumber => AnswerV::NoNumber,
            Answer::Text(s) => AnswerV::Text(s@),
            Answer::Index(i) => AnswerV::Index(*i),
            Answer::Bytes(v) => AnswerV::Bytes(v@),
            Answer::Failed(s) => AnswerV::Failed(s@),
            Answer::Broken(v, s) => AnswerV::Broken(v@, s@),
        }
    }
}

pub fn clone_bytes(v: &Vec<u8>) -> (r: Vec<u8>)
    ensures
        r@ == v@,
{
    let mut r: Vec<u8> = Vec::new();
    let mut i: usize = 0;
    while i < v.len()
        invariant
            i <= v.len(),
            r@ == v@.take(i as int),
        decreases v.len() - i,
    {
        r.push(v[i]);
        proof {
            assert(v@.take(i as int + 1) =~= v@.take(i as int).push(v@[i as int]));
        }
        i += 1;
    }
    proof {
        assert(v@.take(v@.len() as int) =~= v@);
    }
    r
}

impl Clone for Answer {
    fn clone(&self) -> (r: Self)
        ensures
            r@ == self@,
    {
        match self {
            Answer::Float(b) => Answer::Float(*b),
            Answer::NoNumber => Answer::NoNumber,
            Answer::Text(s) => Answer::Text(s.clone()),
            Answer::Index(i) => Answer::Index(*i),
            Answer::Bytes(v) => Answer::Bytes(clone_bytes(v)),
            Answer::Failed(s) => Answer::Failed(s.clone()),
            Answer::Broken(v, s) => Answer::Broken(clone_bytes(v), s.clone()),
        }
    }
}

/// The view of an answer that may be missing.
pub open spec fn answer_view(a: Option<Answer>) -> Option<AnswerV> {
    match a {
        Some(x) => Some(x@),
        None => None,
    }
}

/// The answers that are at hand, as a function of the request.
pub type AnswersV = spec_fn(RequestV) -> Option<AnswerV>;

/// A source of answers. The same request always gets the same answer.
pub trait Outside {
    /// The answers that this source gives.
    open spec fn answers(&self) -> AnswersV {
        arbitrary()
    }

    /// The answer to a request, `None` where the source has none.
    fn answer(&self, request: &Request) -> (a: Option<Answer>)
        ensures
            answer_view(a) == (self.answers())(request@),
    ;
}

/// Answers that were collected beforehand. A request that is not among them
/// stops a query, which then reports the request.
#[derive(Debug)]
pub struct Answers {
    pub entries: Vec<(Request, Answer)>,
}

/// The first answer from position `i` on to a request.
pub open spec fn answer_from(s: Seq<(Request, Answer)>, r: RequestV, i: int) -> Option<AnswerV>
    decreases s.len() - i,
{
    if i < 0 || i >= s.len() {
        None
    } else if s[i].0@ == r {
        Some(s[i].1@)
    } else {
        answer_from(s, r, i + 1)
    }
}

impl Answers {
    pub fn new() -> (r: Self)
        ensures
            forall|q: RequestV| (#[trigger] (r.answers())(q)) is None,
    {
        Answers { entries: Vec::new() }
    }

    /// Adds the answer to a request that has none yet.
    pub fn insert(&mut self, request: Request, answer: Answer)
        ensures
            final(self).entries@ == old(self).entries@.push((request, answer)),
    {
        self.entries.push((request, answer));
    }
}

impl Outside for Answers {
    open spec fn answers(&self) -> AnswersV {
        |r: RequestV| answer_from(self.entries@, r, 0)
    }

    fn answer(&self, request: &Request) -> (a: Option<Answer>) {
        let mut i: usize = 0;
        while i < self.entries.len()
            invariant
                i <= self.entries.len(),
                answer_from(self.entries@, request@, 0) == answer_from(
                    self.entries@,
                    request@,
                    i as int,
                ),
            decreases self.entries.len() - i,
        {
            if self.entries[i].0.same(request) {
                return Some(self.entries[i].1.clone());
            }
            i += 1;
        }
        None
    }
}

} // verus!
