//! The errors that a query can end in.
use crate::outside::{Request, RequestV};
use crate::text::join2;
use vstd::prelude::*;

verus! {

#[derive(Debug, PartialEq)]
pub enum CypherError {
    ParseError(String),
    TypeError(String),
    SemanticError(String),
    RuntimeError(String),
    NotImplemented(String),
    ConstraintError(String),
    /// The query needs the answer to a request, and none is at hand.
    Pending(Request),
}

/// The view of a `CypherError`.
pub enum ErrV {
    Parse(Seq<char>),
    Type(Seq<char>),
    Semantic(Seq<char>),
    Runtime(Seq<char>),
    NotImplemented(Seq<char>),
    Constraint(Seq<char>),
    Pending(RequestV),
}

impl CypherError {
    pub open spec fn view(&self) -> ErrV {
        match self {
            CypherError::ParseError(m) => ErrV::Parse(m@),
            CypherError::TypeError(m) => ErrV::Type(m@),
            CypherError::SemanticError(m) => ErrV::Semantic(m@),
            CypherError::RuntimeError(m) => ErrV::Runtime(m@),
            CypherError::NotImplemented(m) => ErrV::NotImplemented(m@),
            CypherError::ConstraintError(m) => ErrV::Constraint(m@),
            CypherError::Pending(r) => ErrV::Pending(r@),
        }
    }

    /// The text that describes the error to a reader.
    pub fn to_string(&self) -> (r: String)
        ensures
            r@ == error_text(self@),
    {
        match self {
            CypherError::ParseError(m) => join2("Parse error: ", m.as_str()),
            CypherError::TypeError(m) => join2("Type error: ", m.as_str()),
            CypherError::SemanticError(m) => join2("Semantic error: ", m.as_str()),
            CypherError::RuntimeError(m) => join2("Runtime error: ", m.as_str()),
            CypherError::NotImplemented(m) => join2("Not implemented: ", m.as_str()),
            CypherError::ConstraintError(m) => join2("Constraint error: ", m.as_str()),
            CypherError::Pending(_) => "Pending: an answer from outside is needed".to_owned(),
        }
    }
}

/// The text that describes an error to a reader.
pub open spec fn error_text(e: ErrV) -> Seq<char> {
    match e {
        ErrV::Parse(m) => "Parse error: "@ + m,
        ErrV::Type(m) => "Type error: "@ + m,
        ErrV::Semantic(m) => "Semantic error: "@ + m,
        ErrV::Runtime(m) => "Runtime error: "@ + m,
        ErrV::NotImplemented(m) => "Not implemented: "@ + m,
        ErrV::Constraint(m) => "Constraint error: "@ + m,
        ErrV::Pending(_) => "Pending: an answer from outside is needed"@,
    }
}

impl Clone for CypherError {
    fn clone(&self) -> (r: Self)
        ensures
            r@ == self@,
    {
        match self {
            CypherError::ParseError(m) => CypherError::ParseError(m.clone()),
            CypherError::TypeError(m) => CypherError::TypeError(m.clone()),
            CypherError::SemanticError(m) => CypherError::SemanticError(m.clone()),
            CypherError::RuntimeError(m) => CypherError::RuntimeError(m.clone()),
            CypherError::NotImplemented(m) => CypherError::NotImplemented(m.clone()),
            CypherError::ConstraintError(m) => CypherError::ConstraintError(m.clone()),
            CypherError::Pending(r) => CypherError::Pending(r.clone()),
        }
    }
}

} // verus!
