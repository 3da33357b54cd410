//! Why the graph refuses a node or a constraint, and the messages that say so.
//!
//! A message can show the value of a property. The numeral of a floating-point
//! number comes from outside, so the storage gives the reason as data and the
//! message is made of it where answers are at hand.
use crate::error::{CypherError, ErrV};
use crate::outside::{Answer, AnswerV, AnswersV, Outside, Request, RequestV};
use crate::text::{self, escape_text, i64_text, join2, join3, join_texts, u64_text};
use crate::value::{NodeId, PropV, PropertyValue};
use vstd::prelude::*;

verus! {

/// A reason why a constraint is broken.
#[derive(Debug)]
pub enum Refusal {
    /// A reason without a value.
    Plain(String),
    /// Two nodes with a label have the same value of a property.
    Shared {
        first: NodeId,
        second: NodeId,
        label: String,
        property: String,
        value: PropertyValue,
    },
    /// A node with a label has the value of a property already.
    Taken { label: String, property: String, value: PropertyValue },
    /// A node with a label has the values of a key already.
    KeyTaken { label: String, values: Vec<Option<PropertyValue>> },
}

/// The view of a `Refusal`.
#[allow(inconsistent_fields)]
pub enum RefusalV {
    Plain(Seq<char>),
    Shared { first: u64, second: u64, label: Seq<char>, property: Seq<char>, value: PropV },
    Taken { label: Seq<char>, property: Seq<char>, value: PropV },
    KeyTaken { label: Seq<char>, values: Seq<Option<PropV>> },
}

/// The view of a property value that may be missing.
pub open spec fn opt_prop(o: Option<PropertyValue>) -> Option<PropV> {
    match o {
        Some(p) => Some(p@),
        None => None,
    }
}

pub open spec fn opt_props(s: Seq<Option<PropertyValue>>) -> Seq<Option<PropV>> {
    Seq::new(s.len(), |i: int| opt_prop(s[i]))
}

impl Refusal {
    pub open spec fn view(&self) -> RefusalV {
        match self {
            Refusal::Plain(m) => RefusalV::Plain(m@),
            Refusal::Shared { first, second, label, property, value } => RefusalV::Shared {
                first: *first,
                second: *second,
                label: label@,
                property: property@,
                value: value@,
            },
            Refusal::Taken { label, property, value } => RefusalV::Taken {
                label: label@,
                property: property@,
                value: value@,
            },
            Refusal::KeyTaken { label, values } => RefusalV::KeyTaken {
                label: label@,
                values: opt_props(values@),
            },
        }
    }
}

/// The text of a property value in messages.
pub open spec fn prop_text(ans: AnswersV, p: PropV) -> Result<Seq<char>, ErrV> {
    match p {
        PropV::Str(s) => Ok("String("@ + text::escaped_text(s) + ")"@),
        PropV::Int(i) => Ok("Int("@ + text::int_text(i as int) + ")"@),
        PropV::Float(f) => match ans(RequestV::DebugFloat(f)) {
            Some(AnswerV::Text(t)) => Ok("Float("@ + t + ")"@),
            _ => Err(ErrV::Pending(RequestV::DebugFloat(f))),
        },
        PropV::Bool(b) => Ok(
            if b {
                "Bool(true)"@
            } else {
                "Bool(false)"@
            },
        ),
    }
}

/// The text of a property that may be there in messages.
pub open spec fn opt_prop_text(ans: AnswersV, o: Option<PropV>) -> Result<Seq<char>, ErrV> {
    match o {
        Some(p) => match prop_text(ans, p) {
            Ok(t) => Ok("Some("@ + t + ")"@),
            Err(x) => Err(x),
        },
        None => Ok("None"@),
    }
}

/// The quoted texts of the first `n` values of a key.
pub open spec fn value_texts(ans: AnswersV, vs: Seq<Option<PropV>>, n: int) -> Result<
    Seq<Seq<char>>,
    ErrV,
>
    decreases n,
{
    if n <= 0 || n > vs.len() {
        Ok(seq![])
    } else {
        match value_texts(ans, vs, n - 1) {
            Err(x) => Err(x),
            Ok(before) => match opt_prop_text(ans, vs[n - 1]) {
                Err(x) => Err(x),
                Ok(t) => Ok(before.push(text::escaped_text(t))),
            },
        }
    }
}

/// The message of a refusal.
pub open spec fn refusal_text(ans: AnswersV, r: RefusalV) -> Result<Seq<char>, ErrV> {
    match r {
        RefusalV::Plain(m) => Ok(m),
        RefusalV::Shared { first, second, label, property, value } => match prop_text(ans, value) {
            Err(x) => Err(x),
            Ok(t) => Ok(
                "Unique constraint violation: nodes "@ + text::nat_text(first as nat) + " and "@
                    + text::nat_text(second as nat) + " both have "@ + label + ":"@ + property
                    + " = "@ + t,
            ),
        },
        RefusalV::Taken { label, property, value } => match prop_text(ans, value) {
            Err(x) => Err(x),
            Ok(t) => Ok(
                "Unique constraint violation on "@ + label + ":"@ + property + ": value "@ + t
                    + " already exists"@,
            ),
        },
        RefusalV::KeyTaken { label, values } => match value_texts(
            ans,
            values,
            values.len() as int,
        ) {
            Err(x) => Err(x),
            Ok(ts) => Ok(
                "NODE KEY constraint violation on "@ + label + ": duplicate key "@ + ("["@
                    + text::joined(ts, ", "@) + "]"@),
            ),
        },
    }
}

/// The error that a refusal ends a query in.
pub open spec fn refused(ans: AnswersV, r: RefusalV) -> ErrV {
    match refusal_text(ans, r) {
        Ok(m) => ErrV::Constraint(m),
        Err(x) => x,
    }
}

/// Every floating-point number has a numeral in messages.
pub open spec fn shows_floats(ans: AnswersV) -> bool {
    forall|f: u64| (#[trigger] ans(RequestV::DebugFloat(f))) matches Some(AnswerV::Text(_))
}

/// Where every number has a numeral, a refusal ends a query in an error on the
/// constraint.
pub proof fn lemma_refused(ans: AnswersV, r: RefusalV)
    requires
        shows_floats(ans),
    ensures
        refused(ans, r) is Constraint,
{
    match r {
        RefusalV::KeyTaken { values, .. } => {
            lemma_values_shown(ans, values, values.len() as int);
        },
        _ => {},
    }
}

proof fn lemma_values_shown(ans: AnswersV, vs: Seq<Option<PropV>>, n: int)
    requires
        shows_floats(ans),
    ensures
        value_texts(ans, vs, n) is Ok,
    decreases n,
{
    if 0 < n <= vs.len() {
        lemma_values_shown(ans, vs, n - 1);
    }
}

/// The view of a text or an error.
pub open spec fn text_outcome(r: Result<String, CypherError>) -> Result<Seq<char>, ErrV> {
    match r {
        Ok(s) => Ok(s@),
        Err(e) => Err(e@),
    }
}

fn write_property<O: Outside>(p: &PropertyValue, outside: &O) -> (r: Result<String, CypherError>)
    ensures
        text_outcome(r) == prop_text(outside.answers(), p@),
{
    match p {
        PropertyValue::String(s) => Ok(
            join3("String(", escape_text(s.as_str()).as_str(), ")"),
        ),
        PropertyValue::Int(i) => Ok(join3("Int(", i64_text(*i).as_str(), ")")),
        PropertyValue::Float(f) => {
            let request = Request::DebugFloat(*f);
            match outside.answer(&request) {
                Some(Answer::Text(t)) => Ok(join3("Float(", t.as_str(), ")")),
                _ => Err(CypherError::Pending(request)),
            }
        },
        PropertyValue::Bool(b) => Ok(
            if *b {
                "Bool(true)".to_owned()
            } else {
                "Bool(false)".to_owned()
            },
        ),
    }
}

fn write_values<O: Outside>(vs: &Vec<Option<PropertyValue>>, outside: &O) -> (r: Result<
    Vec<String>,
    CypherError,
>)
    ensures
        (match r {
            Ok(ts) => Ok(text::texts_view(ts@)),
            Err(e) => Err(e@),
        }) == value_texts(outside.answers(), opt_props(vs@), vs@.len() as int),
{
    let ghost want = value_texts(outside.answers(), opt_props(vs@), vs@.len() as int);
    let mut out: Vec<String> = Vec::new();
    let mut i: usize = 0;
    proof {
        assert(text::texts_view(out@) =~= seq![]);
    }
    while i < vs.len()
        invariant
            i <= vs.len(),
            want == value_texts(outside.answers(), opt_props(vs@), vs@.len() as int),
            value_texts(outside.answers(), opt_props(vs@), i as int) == Ok::<Seq<Seq<char>>, ErrV>(
                text::texts_view(out@),
            ),
        decreases vs.len() - i,
    {
        let ghost before = text::texts_view(out@);
        proof {
            assert(opt_props(vs@)[i as int] == opt_prop(vs@[i as int]));
        }
        let shown = match &vs[i] {
            Some(p) => match write_property(p, outside) {
                Ok(t) => join3("Some(", t.as_str(), ")"),
                Err(e) => {
                    proof {
                        lemma_values_fail(
                            outside.answers(),
                            opt_props(vs@),
                            i + 1,
                            vs@.len() as int,
                        );
                    }
                    return Err(e);
                },
            },
            None => "None".to_owned(),
        };
        out.push(escape_text(shown.as_str()));
        proof {
            assert(text::texts_view(out@) =~= before.push(text::escaped_text(shown@)));
        }
        i += 1;
    }
    Ok(out)
}

/// A value without a text leaves a longer list without one.
proof fn lemma_values_fail(ans: AnswersV, vs: Seq<Option<PropV>>, n: int, m: int)
    requires
        0 <= n <= m <= vs.len(),
        value_texts(ans, vs, n) is Err,
    ensures
        value_texts(ans, vs, m) == value_texts(ans, vs, n),
    decreases m - n,
{
    if n < m {
        lemma_values_fail(ans, vs, n, m - 1);
    }
}

impl Refusal {
    /// The message of a refusal.
    pub fn message<O: Outside>(&self, outside: &O) -> (r: Result<String, CypherError>)
        ensures
            text_outcome(r) == refusal_text(outside.answers(), self@),
    {
        match self {
            Refusal::Plain(m) => Ok(m.clone()),
            Refusal::Shared { first, second, label, property, value } => {
                let t = write_property(value, outside)?;
                let nodes = join3(
                    join3(
                        "Unique constraint violation: nodes ",
                        u64_text(*first).as_str(),
                        " and ",
                    ).as_str(),
                    u64_text(*second).as_str(),
                    " both have ",
                );
                let place = join3(
                    join3(nodes.as_str(), label.as_str(), ":").as_str(),
                    property.as_str(),
                    " = ",
                );
                Ok(join2(place.as_str(), t.as_str()))
            },
            Refusal::Taken { label, property, value } => {
                let t = write_property(value, outside)?;
                let place = join3("Unique constraint violation on ", label.as_str(), ":");
                let what = join3(place.as_str(), property.as_str(), ": value ");
                Ok(join3(what.as_str(), t.as_str(), " already exists"))
            },
            Refusal::KeyTaken { label, values } => {
                let ts = write_values(values, outside)?;
                let place = join3(
                    "NODE KEY constraint violation on ",
                    label.as_str(),
                    ": duplicate key ",
                );
                let key = join3("[", join_texts(&ts, ", ").as_str(), "]");
                Ok(join2(place.as_str(), key.as_str()))
            },
        }
    }

    /// The error that a refusal ends a query in.
    pub fn error<O: Outside>(&self, outside: &O) -> (r: CypherError)
        ensures
            r@ == refused(outside.answers(), self@),
    {
        match self.message(outside) {
            Ok(m) => CypherError::ConstraintError(m),
            Err(e) => e,
        }
    }
}

} // verus!
