//! From the text of a query to its words, numerals, strings and signs.
use crate::error::{CypherError, ErrV};
use crate::text::{self, chars_of, is_space_char, join2, same_text, slice_text, u64_text, uppercase};
use vstd::prelude::*;

verus! {

/// The words that mean something in some place of a query, in any letter case.
#[derive(Debug, Clone, Copy, PartialEq, Eq, Structural)]
pub enum Kw {
    Match,
    Optional,
    Mandatory,
    Create,
    Constraint,
    For,
    Require,
    Is,
    Unique,
    Not,
    Null,
    Node,
    Key,
    Typed,
    Return,
    Distinct,
    Order,
    By,
    Asc,
    Ascending,
    Desc,
    Descending,
    Skip,
    Limit,
    With,
    Where,
    Unwind,
    As,
    Load,
    Csv,
    Headers,
    From,
    Fieldterminator,
    SetTo,
    Remove,
    Delete,
    Detach,
    Merge,
    On,
    Union,
    All,
    Any,
    NoneOf,
    Single,
    Reduce,
    Exists,
    In,
    And,
    Or,
    Xor,
    Case,
    When,
    ThenPart,
    Else,
    End,
    True,
    False,
    Starts,
    Ends,
    Contains,
    ShortestPath,
    AllShortestPaths,
    Boolean,
    Text,
    Integer,
    Float,
    /// Any other word.
    Other,
}

/// Signs.
#[derive(Debug, Clone, Copy, PartialEq, Eq, Structural)]
pub enum Sign {
    LParen,
    RParen,
    LBrack,
    RBrack,
    LBrace,
    RBrace,
    Comma,
    Colon,
    Dot,
    DotDot,
    Pipe,
    Plus,
    PlusEq,
    Minus,
    Star,
    Slash,
    Percent,
    Caret,
    Eq,
    Neq,
    Lt,
    Le,
    Gt,
    Ge,
    Like,
    Semi,
    Dollar,
}

#[derive(Debug)]
pub enum Tok {
    Word(String, Kw),
    /// A name between back quotes.
    Quoted(String),
    Integer(String),
    Float(String),
    /// A string as it was written, with its quotes.
    Text(String),
    Sign(Sign),
}

/// The view of a `Tok`.
pub enum TokV {
    Word(Seq<char>, Kw),
    Quoted(Seq<char>),
    Integer(Seq<char>),
    Float(Seq<char>),
    Text(Seq<char>),
    Sign(Sign),
}

/// A token, and where in the text it begins.
#[derive(Debug)]
pub struct Token {
    pub tok: Tok,
    pub at: usize,
}

/// The view of a `Token`.
pub struct TokenV {
    pub tok: TokV,
    pub at: usize,
}

impl Tok {
    pub open spec fn view(&self) -> TokV {
        match self {
            Tok::Word(w, k) => TokV::Word(w@, *k),
            Tok::Quoted(w) => TokV::Quoted(w@),
            Tok::Integer(s) => TokV::Integer(s@),
            Tok::Float(s) => TokV::Float(s@),
            Tok::Text(s) => TokV::Text(s@),
            Tok::Sign(s) => TokV::Sign(*s),
        }
    }
}

impl Token {
    pub open spec fn view(&self) -> TokenV {
        TokenV { tok: self.tok@, at: self.at }
    }
}

pub open spec fn tokens_view(s: Seq<Token>) -> Seq<TokenV> {
    Seq::new(s.len(), |i: int| s[i]@)
}

// ---------------------------------------------------------------------------
// Words
// ---------------------------------------------------------------------------

/// The keyword with the given capital letters.
#[verifier::opaque]
pub open spec fn keyword(u: Seq<char>) -> Kw {
    if u == "MATCH"@ {
        Kw::Match
    } else if u == "OPTIONAL"@ {
        Kw::Optional
    } else if u == "MANDATORY"@ {
        Kw::Mandatory
    } else if u == "CREATE"@ {
        Kw::Create
    } else if u == "CONSTRAINT"@ {
        Kw::Constraint
    } else if u == "FOR"@ {
        Kw::For
    } else if u == "REQUIRE"@ {
        Kw::Require
    } else if u == "IS"@ {
        Kw::Is
    } else if u == "UNIQUE"@ {
        Kw::Unique
    } else if u == "NOT"@ {
        Kw::Not
    } else if u == "NULL"@ {
        Kw::Null
    } else if u == "NODE"@ {
        Kw::Node
    } else if u == "KEY"@ {
        Kw::Key
    } else if u == "TYPED"@ {
        Kw::Typed
    } else if u == "RETURN"@ {
        Kw::Return
    } else if u == "DISTINCT"@ {
        Kw::Distinct
    } else if u == "ORDER"@ {
        Kw::Order
    } else if u == "BY"@ {
        Kw::By
    } else if u == "ASC"@ {
        Kw::Asc
    } else if u == "ASCENDING"@ {
        Kw::Ascending
    } else if u == "DESC"@ {
        Kw::Desc
    } else if u == "DESCENDING"@ {
        Kw::Descending
    } else if u == "SKIP"@ {
        Kw::Skip
    } else if u == "LIMIT"@ {
        Kw::Limit
    } else if u == "WITH"@ {
        Kw::With
    } else if u == "WHERE"@ {
        Kw::Where
    } else if u == "UNWIND"@ {
        Kw::Unwind
    } else if u == "AS"@ {
        Kw::As
    } else if u == "LOAD"@ {
        Kw::Load
    } else if u == "CSV"@ {
        Kw::Csv
    } else if u == "HEADERS"@ {
        Kw::Headers
    } else if u == "FROM"@ {
        Kw::From
    } else if u == "FIELDTERMINATOR"@ {
        Kw::Fieldterminator
    } else if u == "SET"@ {
        Kw::SetTo
    } else if u == "REMOVE"@ {
        Kw::Remove
    } else if u == "DELETE"@ {
        Kw::Delete
    } else if u == "DETACH"@ {
        Kw::Detach
    } else if u == "MERGE"@ {
        Kw::Merge
    } else if u == "ON"@ {
        Kw::On
    } else if u == "UNION"@ {
        Kw::Union
    } else if u == "ALL"@ {
        Kw::All
    } else if u == "ANY"@ {
        Kw::Any
    } else if u == "NONE"@ {
        Kw::NoneOf
    } else if u == "SINGLE"@ {
        Kw::Single
    } else if u == "REDUCE"@ {
        Kw::Reduce
    } else if u == "EXISTS"@ {
        Kw::Exists
    } else if u == "IN"@ {
        Kw::In
    } else if u == "AND"@ {
        Kw::And
    } else if u == "OR"@ {
        Kw::Or
    } else if u == "XOR"@ {
        Kw::Xor
    } else if u == "CASE"@ {
        Kw::Case
    } else if u == "WHEN"@ {
        Kw::When
    } else if u == "THEN"@ {
        Kw::ThenPart
    } else if u == "ELSE"@ {
        Kw::Else
    } else if u == "END"@ {
        Kw::End
    } else if u == "TRUE"@ {
        Kw::True
    } else if u == "FALSE"@ {
        Kw::False
    } else if u == "STARTS"@ {
        Kw::Starts
    } else if u == "ENDS"@ {
        Kw::Ends
    } else if u == "CONTAINS"@ {
        Kw::Contains
    } else if u == "SHORTESTPATH"@ {
        Kw::ShortestPath
    } else if u == "ALLSHORTESTPATHS"@ {
        Kw::AllShortestPaths
    } else if u == "BOOLEAN"@ {
        Kw::Boolean
    } else if u == "STRING"@ {
        Kw::Text
    } else if u == "INTEGER"@ {
        Kw::Integer
    } else if u == "FLOAT"@ {
        Kw::Float
    } else {
        Kw::Other
    }
}

/// A word that begins with an underscore is no keyword.
pub proof fn lemma_keyword_underscore(u: Seq<char>)
    requires
        u.len() > 0,
        u[0] == '_',
    ensures
        keyword(u) == Kw::Other,
{
    reveal(keyword);
    reveal_strlit("MATCH");
    reveal_strlit("OPTIONAL");
    reveal_strlit("MANDATORY");
    reveal_strlit("CREATE");
    reveal_strlit("CONSTRAINT");
    reveal_strlit("FOR");
    reveal_strlit("REQUIRE");
    reveal_strlit("IS");
    reveal_strlit("UNIQUE");
    reveal_strlit("NOT");
    reveal_strlit("NULL");
    reveal_strlit("NODE");
    reveal_strlit("KEY");
    reveal_strlit("TYPED");
    reveal_strlit("RETURN");
    reveal_strlit("DISTINCT");
    reveal_strlit("ORDER");
    reveal_strlit("BY");
    reveal_strlit("ASC");
    reveal_strlit("ASCENDING");
    reveal_strlit("DESC");
    reveal_strlit("DESCENDING");
    reveal_strlit("SKIP");
    reveal_strlit("LIMIT");
    reveal_strlit("WITH");
    reveal_strlit("WHERE");
    reveal_strlit("UNWIND");
    reveal_strlit("AS");
    reveal_strlit("LOAD");
    reveal_strlit("CSV");
    reveal_strlit("HEADERS");
    reveal_strlit("FROM");
    reveal_strlit("FIELDTERMINATOR");
    reveal_strlit("SET");
    reveal_strlit("REMOVE");
    reveal_strlit("DELETE");
    reveal_strlit("DETACH");
    reveal_strlit("MERGE");
    reveal_strlit("ON");
    reveal_strlit("UNION");
    reveal_strlit("ALL");
    reveal_strlit("ANY");
    reveal_strlit("NONE");
    reveal_strlit("SINGLE");
    reveal_strlit("REDUCE");
    reveal_strlit("EXISTS");
    reveal_strlit("IN");
    reveal_strlit("AND");
    reveal_strlit("OR");
    reveal_strlit("XOR");
    reveal_strlit("CASE");
    reveal_strlit("WHEN");
    reveal_strlit("THEN");
    reveal_strlit("ELSE");
    reveal_strlit("END");
    reveal_strlit("TRUE");
    reveal_strlit("FALSE");
    reveal_strlit("STARTS");
    reveal_strlit("ENDS");
    reveal_strlit("CONTAINS");
    reveal_strlit("SHORTESTPATH");
    reveal_strlit("ALLSHORTESTPATHS");
    reveal_strlit("BOOLEAN");
    reveal_strlit("STRING");
    reveal_strlit("INTEGER");
    reveal_strlit("FLOAT");
    assert("MATCH"@[0] != '_');
    assert("OPTIONAL"@[0] != '_');
    assert("MANDATORY"@[0] != '_');
    assert("CREATE"@[0] != '_');
    assert("CONSTRAINT"@[0] != '_');
    assert("FOR"@[0] != '_');
    assert("REQUIRE"@[0] != '_');
    assert("IS"@[0] != '_');
    assert("UNIQUE"@[0] != '_');
    assert("NOT"@[0] != '_');
    assert("NULL"@[0] != '_');
    assert("NODE"@[0] != '_');
    assert("KEY"@[0] != '_');
    assert("TYPED"@[0] != '_');
    assert("RETURN"@[0] != '_');
    assert("DISTINCT"@[0] != '_');
    assert("ORDER"@[0] != '_');
    assert("BY"@[0] != '_');
    assert("ASC"@[0] != '_');
    assert("ASCENDING"@[0] != '_');
    assert("DESC"@[0] != '_');
    assert("DESCENDING"@[0] != '_');
    assert("SKIP"@[0] != '_');
    assert("LIMIT"@[0] != '_');
    assert("WITH"@[0] != '_');
    assert("WHERE"@[0] != '_');
    assert("UNWIND"@[0] != '_');
    assert("AS"@[0] != '_');
    assert("LOAD"@[0] != '_');
    assert("CSV"@[0] != '_');
    assert("HEADERS"@[0] != '_');
    assert("FROM"@[0] != '_');
    assert("FIELDTERMINATOR"@[0] != '_');
    assert("SET"@[0] != '_');
    assert("REMOVE"@[0] != '_');
    assert("DELETE"@[0] != '_');
    assert("DETACH"@[0] != '_');
    assert("MERGE"@[0] != '_');
    assert("ON"@[0] != '_');
    assert("UNION"@[0] != '_');
    assert("ALL"@[0] != '_');
    assert("ANY"@[0] != '_');
    assert("NONE"@[0] != '_');
    assert("SINGLE"@[0] != '_');
    assert("REDUCE"@[0] != '_');
    assert("EXISTS"@[0] != '_');
    assert("IN"@[0] != '_');
    assert("AND"@[0] != '_');
    assert("OR"@[0] != '_');
    assert("XOR"@[0] != '_');
    assert("CASE"@[0] != '_');
    assert("WHEN"@[0] != '_');
    assert("THEN"@[0] != '_');
    assert("ELSE"@[0] != '_');
    assert("END"@[0] != '_');
    assert("TRUE"@[0] != '_');
    assert("FALSE"@[0] != '_');
    assert("STARTS"@[0] != '_');
    assert("ENDS"@[0] != '_');
    assert("CONTAINS"@[0] != '_');
    assert("SHORTESTPATH"@[0] != '_');
    assert("ALLSHORTESTPATHS"@[0] != '_');
    assert("BOOLEAN"@[0] != '_');
    assert("STRING"@[0] != '_');
    assert("INTEGER"@[0] != '_');
    assert("FLOAT"@[0] != '_');
}

/// The keywords of literals and of the creation of patterns.
pub proof fn lemma_keyword_literals()
    ensures
        keyword("CREATE"@) == Kw::Create,
        keyword("TRUE"@) == Kw::True,
        keyword("FALSE"@) == Kw::False,
{
    reveal(keyword);
    reveal_strlit("MATCH");
    reveal_strlit("OPTIONAL");
    reveal_strlit("MANDATORY");
    reveal_strlit("CREATE");
    reveal_strlit("CONSTRAINT");
    reveal_strlit("FOR");
    reveal_strlit("REQUIRE");
    reveal_strlit("IS");
    reveal_strlit("UNIQUE");
    reveal_strlit("NOT");
    reveal_strlit("NULL");
    reveal_strlit("NODE");
    reveal_strlit("KEY");
    reveal_strlit("TYPED");
    reveal_strlit("RETURN");
    reveal_strlit("DISTINCT");
    reveal_strlit("ORDER");
    reveal_strlit("BY");
    reveal_strlit("ASC");
    reveal_strlit("ASCENDING");
    reveal_strlit("DESC");
    reveal_strlit("DESCENDING");
    reveal_strlit("SKIP");
    reveal_strlit("LIMIT");
    reveal_strlit("WITH");
    reveal_strlit("WHERE");
    reveal_strlit("UNWIND");
    reveal_strlit("AS");
    reveal_strlit("LOAD");
    reveal_strlit("CSV");
    reveal_strlit("HEADERS");
    reveal_strlit("FROM");
    reveal_strlit("FIELDTERMINATOR");
    reveal_strlit("SET");
    reveal_strlit("REMOVE");
    reveal_strlit("DELETE");
    reveal_strlit("DETACH");
    reveal_strlit("MERGE");
    reveal_strlit("ON");
    reveal_strlit("UNION");
    reveal_strlit("ALL");
    reveal_strlit("ANY");
    reveal_strlit("NONE");
    reveal_strlit("SINGLE");
    reveal_strlit("REDUCE");
    reveal_strlit("EXISTS");
    reveal_strlit("IN");
    reveal_strlit("AND");
    reveal_strlit("OR");
    reveal_strlit("XOR");
    reveal_strlit("CASE");
    reveal_strlit("WHEN");
    reveal_strlit("THEN");
    reveal_strlit("ELSE");
    reveal_strlit("END");
    reveal_strlit("TRUE");
    reveal_strlit("FALSE");
    assert("MATCH"@.len() != "CREATE"@.len());
    assert("OPTIONAL"@.len() != "CREATE"@.len());
    assert("MANDATORY"@.len() != "CREATE"@.len());
    assert("MATCH"@.len() != "TRUE"@.len());
    assert("OPTIONAL"@.len() != "TRUE"@.len());
    assert("MANDATORY"@.len() != "TRUE"@.len());
    assert("CREATE"@.len() != "TRUE"@.len());
    assert("CONSTRAINT"@.len() != "TRUE"@.len());
    assert("FOR"@.len() != "TRUE"@.len());
    assert("REQUIRE"@.len() != "TRUE"@.len());
    assert("IS"@.len() != "TRUE"@.len());
    assert("UNIQUE"@.len() != "TRUE"@.len());
    assert("NOT"@.len() != "TRUE"@.len());
    assert("NULL"@[0] != "TRUE"@[0]);
    assert("NODE"@[0] != "TRUE"@[0]);
    assert("KEY"@.len() != "TRUE"@.len());
    assert("TYPED"@.len() != "TRUE"@.len());
    assert("RETURN"@.len() != "TRUE"@.len());
    assert("DISTINCT"@.len() != "TRUE"@.len());
    assert("ORDER"@.len() != "TRUE"@.len());
    assert("BY"@.len() != "TRUE"@.len());
    assert("ASC"@.len() != "TRUE"@.len());
    assert("ASCENDING"@.len() != "TRUE"@.len());
    assert("DESC"@[0] != "TRUE"@[0]);
    assert("DESCENDING"@.len() != "TRUE"@.len());
    assert("SKIP"@[0] != "TRUE"@[0]);
    assert("LIMIT"@.len() != "TRUE"@.len());
    assert("WITH"@[0] != "TRUE"@[0]);
    assert("WHERE"@.len() != "TRUE"@.len());
    assert("UNWIND"@.len() != "TRUE"@.len());
    assert("AS"@.len() != "TRUE"@.len());
    assert("LOAD"@[0] != "TRUE"@[0]);
    assert("CSV"@.len() != "TRUE"@.len());
    assert("HEADERS"@.len() != "TRUE"@.len());
    assert("FROM"@[0] != "TRUE"@[0]);
    assert("FIELDTERMINATOR"@.len() != "TRUE"@.len());
    assert("SET"@.len() != "TRUE"@.len());
    assert("REMOVE"@.len() != "TRUE"@.len());
    assert("DELETE"@.len() != "TRUE"@.len());
    assert("DETACH"@.len() != "TRUE"@.len());
    assert("MERGE"@.len() != "TRUE"@.len());
    assert("ON"@.len() != "TRUE"@.len());
    assert("UNION"@.len() != "TRUE"@.len());
    assert("ALL"@.len() != "TRUE"@.len());
    assert("ANY"@.len() != "TRUE"@.len());
    assert("NONE"@[0] != "TRUE"@[0]);
    assert("SINGLE"@.len() != "TRUE"@.len());
    assert("REDUCE"@.len() != "TRUE"@.len());
    assert("EXISTS"@.len() != "TRUE"@.len());
    assert("IN"@.len() != "TRUE"@.len());
    assert("AND"@.len() != "TRUE"@.len());
    assert("OR"@.len() != "TRUE"@.len());
    assert("XOR"@.len() != "TRUE"@.len());
    assert("CASE"@[0] != "TRUE"@[0]);
    assert("WHEN"@[0] != "TRUE"@[0]);
    assert("THEN"@[1] != "TRUE"@[1]);
    assert("ELSE"@[0] != "TRUE"@[0]);
    assert("END"@.len() != "TRUE"@.len());
    assert("MATCH"@[0] != "FALSE"@[0]);
    assert("OPTIONAL"@.len() != "FALSE"@.len());
    assert("MANDATORY"@.len() != "FALSE"@.len());
    assert("CREATE"@.len() != "FALSE"@.len());
    assert("CONSTRAINT"@.len() != "FALSE"@.len());
    assert("FOR"@.len() != "FALSE"@.len());
    assert("REQUIRE"@.len() != "FALSE"@.len());
    assert("IS"@.len() != "FALSE"@.len());
    assert("UNIQUE"@.len() != "FALSE"@.len());
    assert("NOT"@.len() != "FALSE"@.len());
    assert("NULL"@.len() != "FALSE"@.len());
    assert("NODE"@.len() != "FALSE"@.len());
    assert("KEY"@.len() != "FALSE"@.len());
    assert("TYPED"@[0] != "FALSE"@[0]);
    assert("RETURN"@.len() != "FALSE"@.len());
    assert("DISTINCT"@.len() != "FALSE"@.len());
    assert("ORDER"@[0] != "FALSE"@[0]);
    assert("BY"@.len() != "FALSE"@.len());
    assert("ASC"@.len() != "FALSE"@.len());
    assert("ASCENDING"@.len() != "FALSE"@.len());
    assert("DESC"@.len() != "FALSE"@.len());
    assert("DESCENDING"@.len() != "FALSE"@.len());
    assert("SKIP"@.len() != "FALSE"@.len());
    assert("LIMIT"@[0] != "FALSE"@[0]);
    assert("WITH"@.len() != "FALSE"@.len());
    assert("WHERE"@[0] != "FALSE"@[0]);
    assert("UNWIND"@.len() != "FALSE"@.len());
    assert("AS"@.len() != "FALSE"@.len());
    assert("LOAD"@.len() != "FALSE"@.len());
    assert("CSV"@.len() != "FALSE"@.len());
    assert("HEADERS"@.len() != "FALSE"@.len());
    assert("FROM"@.len() != "FALSE"@.len());
    assert("FIELDTERMINATOR"@.len() != "FALSE"@.len());
    assert("SET"@.len() != "FALSE"@.len());
    assert("REMOVE"@.len() != "FALSE"@.len());
    assert("DELETE"@.len() != "FALSE"@.len());
    assert("DETACH"@.len() != "FALSE"@.len());
    assert("MERGE"@[0] != "FALSE"@[0]);
    assert("ON"@.len() != "FALSE"@.len());
    assert("UNION"@[0] != "FALSE"@[0]);
    assert("ALL"@.len() != "FALSE"@.len());
    assert("ANY"@.len() != "FALSE"@.len());
    assert("NONE"@.len() != "FALSE"@.len());
    assert("SINGLE"@.len() != "FALSE"@.len());
    assert("REDUCE"@.len() != "FALSE"@.len());
    assert("EXISTS"@.len() != "FALSE"@.len());
    assert("IN"@.len() != "FALSE"@.len());
    assert("AND"@.len() != "FALSE"@.len());
    assert("OR"@.len() != "FALSE"@.len());
    assert("XOR"@.len() != "FALSE"@.len());
    assert("CASE"@.len() != "FALSE"@.len());
    assert("WHEN"@.len() != "FALSE"@.len());
    assert("THEN"@.len() != "FALSE"@.len());
    assert("ELSE"@.len() != "FALSE"@.len());
    assert("END"@.len() != "FALSE"@.len());
    assert("TRUE"@.len() != "FALSE"@.len());
}

fn find_keyword(u: &str) -> (r: Kw)
    ensures
        r == keyword(u@),
{
    proof {
        reveal(keyword);
    }
    if same_text(u, "MATCH") {
        Kw::Match
    } else if same_text(u, "OPTIONAL") {
        Kw::Optional
    } else if same_text(u, "MANDATORY") {
        Kw::Mandatory
    } else if same_text(u, "CREATE") {
        Kw::Create
    } else if same_text(u, "CONSTRAINT") {
        Kw::Constraint
    } else if same_text(u, "FOR") {
        Kw::For
    } else if same_text(u, "REQUIRE") {
        Kw::Require
    } else if same_text(u, "IS") {
        Kw::Is
    } else if same_text(u, "UNIQUE") {
        Kw::Unique
    } else if same_text(u, "NOT") {
        Kw::Not
    } else if same_text(u, "NULL") {
        Kw::Null
    } else if same_text(u, "NODE") {
        Kw::Node
    } else if same_text(u, "KEY") {
        Kw::Key
    } else if same_text(u, "TYPED") {
        Kw::Typed
    } else if same_text(u, "RETURN") {
        Kw::Return
    } else if same_text(u, "DISTINCT") {
        Kw::Distinct
    } else if same_text(u, "ORDER") {
        Kw::Order
    } else if same_text(u, "BY") {
        Kw::By
    } else if same_text(u, "ASC") {
        Kw::Asc
    } else if same_text(u, "ASCENDING") {
        Kw::Ascending
    } else if same_text(u, "DESC") {
        Kw::Desc
    } else if same_text(u, "DESCENDING") {
        Kw::Descending
    } else if same_text(u, "SKIP") {
        Kw::Skip
    } else if same_text(u, "LIMIT") {
        Kw::Limit
    } else if same_text(u, "WITH") {
        Kw::With
    } else if same_text(u, "WHERE") {
        Kw::Where
    } else if same_text(u, "UNWIND") {
        Kw::Unwind
    } else if same_text(u, "AS") {
        Kw::As
    } else if same_text(u, "LOAD") {
        Kw::Load
    } else if same_text(u, "CSV") {
        Kw::Csv
    } else if same_text(u, "HEADERS") {
        Kw::Headers
    } else if same_text(u, "FROM") {
        Kw::From
    } else if same_text(u, "FIELDTERMINATOR") {
        Kw::Fieldterminator
    } else if same_text(u, "SET") {
        Kw::SetTo
    } else if same_text(u, "REMOVE") {
        Kw::Remove
    } else if same_text(u, "DELETE") {
        Kw::Delete
    } else if same_text(u, "DETACH") {
        Kw::Detach
    } else if same_text(u, "MERGE") {
        Kw::Merge
    } else if same_text(u, "ON") {
        Kw::On
    } else if same_text(u, "UNION") {
        Kw::Union
    } else if same_text(u, "ALL") {
        Kw::All
    } else if same_text(u, "ANY") {
        Kw::Any
    } else if same_text(u, "NONE") {
        Kw::NoneOf
    } else if same_text(u, "SINGLE") {
        Kw::Single
    } else if same_text(u, "REDUCE") {
        Kw::Reduce
    } else if same_text(u, "EXISTS") {
        Kw::Exists
    } else if same_text(u, "IN") {
        Kw::In
    } else if same_text(u, "AND") {
        Kw::And
    } else if same_text(u, "OR") {
        Kw::Or
    } else if same_text(u, "XOR") {
        Kw::Xor
    } else if same_text(u, "CASE") {
        Kw::Case
    } else if same_text(u, "WHEN") {
        Kw::When
    } else if same_text(u, "THEN") {
        Kw::ThenPart
    } else if same_text(u, "ELSE") {
        Kw::Else
    } else if same_text(u, "END") {
        Kw::End
    } else if same_text(u, "TRUE") {
        Kw::True
    } else if same_text(u, "FALSE") {
        Kw::False
    } else if same_text(u, "STARTS") {
        Kw::Starts
    } else if same_text(u, "ENDS") {
        Kw::Ends
    } else if same_text(u, "CONTAINS") {
        Kw::Contains
    } else if same_text(u, "SHORTESTPATH") {
        Kw::ShortestPath
    } else if same_text(u, "ALLSHORTESTPATHS") {
        Kw::AllShortestPaths
    } else if same_text(u, "BOOLEAN") {
        Kw::Boolean
    } else if same_text(u, "STRING") {
        Kw::Text
    } else if same_text(u, "INTEGER") {
        Kw::Integer
    } else if same_text(u, "FLOAT") {
        Kw::Float
    } else {
        Kw::Other
    }
}

/// Keywords that cannot be variables.
pub open spec fn reserved(k: Kw) -> bool {
    ||| k == Kw::Match
    ||| k == Kw::Optional
    ||| k == Kw::Mandatory
    ||| k == Kw::Create
    ||| k == Kw::Return
    ||| k == Kw::Distinct
    ||| k == Kw::Order
    ||| k == Kw::Skip
    ||| k == Kw::Limit
    ||| k == Kw::With
    ||| k == Kw::Where
    ||| k == Kw::Unwind
    ||| k == Kw::As
    ||| k == Kw::SetTo
    ||| k == Kw::Remove
    ||| k == Kw::Delete
    ||| k == Kw::Detach
    ||| k == Kw::Merge
    ||| k == Kw::Union
    ||| k == Kw::In
    ||| k == Kw::And
    ||| k == Kw::Or
    ||| k == Kw::Xor
    ||| k == Kw::Not
    ||| k == Kw::Is
    ||| k == Kw::Null
    ||| k == Kw::True
    ||| k == Kw::False
    ||| k == Kw::Case
    ||| k == Kw::When
    ||| k == Kw::ThenPart
    ||| k == Kw::Else
    ||| k == Kw::End
    ||| k == Kw::Starts
    ||| k == Kw::Ends
    ||| k == Kw::Contains
}

pub fn is_reserved(k: Kw) -> (r: bool)
    ensures
        r == reserved(k),
{
    match k {
        Kw::Match => true,
        Kw::Optional => true,
        Kw::Mandatory => true,
        Kw::Create => true,
        Kw::Return => true,
        Kw::Distinct => true,
        Kw::Order => true,
        Kw::Skip => true,
        Kw::Limit => true,
        Kw::With => true,
        Kw::Where => true,
        Kw::Unwind => true,
        Kw::As => true,
        Kw::SetTo => true,
        Kw::Remove => true,
        Kw::Delete => true,
        Kw::Detach => true,
        Kw::Merge => true,
        Kw::Union => true,
        Kw::In => true,
        Kw::And => true,
        Kw::Or => true,
        Kw::Xor => true,
        Kw::Not => true,
        Kw::Is => true,
        Kw::Null => true,
        Kw::True => true,
        Kw::False => true,
        Kw::Case => true,
        Kw::When => true,
        Kw::ThenPart => true,
        Kw::Else => true,
        Kw::End => true,
        Kw::Starts => true,
        Kw::Ends => true,
        Kw::Contains => true,
        _ => false,
    }
}

// ---------------------------------------------------------------------------
// Characters
// ---------------------------------------------------------------------------

#[derive(Debug, Clone, Copy, PartialEq, Eq, Structural)]
pub enum CharClass {
    /// Begins a word.
    WordStart,
    /// Goes on with a word.
    WordPart,
    Digit,
    HexDigit,
    OctalDigit,
}

pub open spec fn in_class(c: char, k: CharClass) -> bool {
    match k {
        CharClass::WordStart => 'a' <= c <= 'z' || 'A' <= c <= 'Z' || c == '_' || (c as u32 >= 128
            && !text::is_space(c)),
        CharClass::WordPart => 'a' <= c <= 'z' || 'A' <= c <= 'Z' || c == '_' || '0' <= c <= '9'
            || (c as u32 >= 128 && !text::is_space(c)),
        CharClass::Digit => '0' <= c <= '9',
        CharClass::HexDigit => '0' <= c <= '9' || 'a' <= c <= 'f' || 'A' <= c <= 'F',
        CharClass::OctalDigit => '0' <= c <= '7',
    }
}

fn is_in_class(c: char, k: CharClass) -> (r: bool)
    ensures
        r == in_class(c, k),
{
    let letter = ('a' <= c && c <= 'z') || ('A' <= c && c <= 'Z') || c == '_' || (c as u32 >= 128
        && !is_space_char(c));
    let digit = '0' <= c && c <= '9';
    match k {
        CharClass::WordStart => letter,
        CharClass::WordPart => letter || digit,
        CharClass::Digit => digit,
        CharClass::HexDigit => digit || ('a' <= c && c <= 'f') || ('A' <= c && c <= 'F'),
        CharClass::OctalDigit => '0' <= c && c <= '7',
    }
}

/// The character at a place is of a class.
pub open spec fn class_at(s: Seq<char>, i: int, k: CharClass) -> bool {
    0 <= i < s.len() && in_class(s[i], k)
}

/// The character at a place is a given one.
pub open spec fn char_at(s: Seq<char>, i: int, c: char) -> bool {
    0 <= i < s.len() && s[i] == c
}

/// Where the characters of a class end that stand at a place.
pub open spec fn run_end(s: Seq<char>, i: int, k: CharClass) -> int
    decreases s.len() - i,
{
    if class_at(s, i, k) {
        run_end(s, i + 1, k)
    } else {
        i
    }
}

fn find_run_end(s: &Vec<char>, i: usize, k: CharClass) -> (r: usize)
    requires
        i <= s.len(),
    ensures
        r == run_end(s@, i as int, k),
        i <= r <= s.len(),
{
    let mut j: usize = i;
    while j < s.len() && is_in_class(s[j], k)
        invariant
            i <= j <= s.len(),
            run_end(s@, i as int, k) == run_end(s@, j as int, k),
        decreases s.len() - j,
    {
        j += 1;
    }
    j
}

fn has_char(s: &Vec<char>, i: usize, c: char) -> (r: bool)
    ensures
        r == char_at(s@, i as int, c),
{
    i < s.len() && s[i] == c
}

fn has_class(s: &Vec<char>, i: usize, k: CharClass) -> (r: bool)
    ensures
        r == class_at(s@, i as int, k),
{
    i < s.len() && is_in_class(s[i], k)
}

/// Where the line ends that a place is in.
pub open spec fn line_end(s: Seq<char>, i: int) -> int
    decreases s.len() - i,
{
    if i < 0 || i >= s.len() || s[i] == '\n' {
        i
    } else {
        line_end(s, i + 1)
    }
}

fn find_line_end(s: &Vec<char>, i: usize) -> (r: usize)
    requires
        i <= s.len(),
    ensures
        r == line_end(s@, i as int),
        i <= r <= s.len(),
{
    let mut j: usize = i;
    while j < s.len() && s[j] != '\n'
        invariant
            i <= j <= s.len(),
            line_end(s@, i as int) == line_end(s@, j as int),
        decreases s.len() - j,
    {
        j += 1;
    }
    j
}

/// The place behind the end of a comment.
pub open spec fn comment_end(s: Seq<char>, i: int) -> Option<int>
    decreases s.len() - i,
{
    if i < 0 || i + 1 >= s.len() {
        None
    } else if s[i] == '*' && s[i + 1] == '/' {
        Some(i + 2)
    } else {
        comment_end(s, i + 1)
    }
}

fn find_comment_end(s: &Vec<char>, i: usize) -> (r: Option<usize>)
    requires
        i <= s.len(),
    ensures
        match r {
            Some(j) => comment_end(s@, i as int) == Some(j as int) && i < j <= s.len(),
            None => comment_end(s@, i as int) is None,
        },
{
    let mut j: usize = i;
    while j < s.len() && j + 1 < s.len()
        invariant
            i <= j <= s.len(),
            comment_end(s@, i as int) == comment_end(s@, j as int),
        decreases s.len() - j,
    {
        if s[j] == '*' && s[j + 1] == '/' {
            return Some(j + 2);
        }
        j += 1;
    }
    None
}

/// The place behind the closing quote of a string; a character behind a
/// backslash does not close it.
pub open spec fn string_end(s: Seq<char>, i: int, q: char) -> Option<int>
    decreases s.len() - i,
{
    if i < 0 || i >= s.len() {
        None
    } else if s[i] == '\\' && q != '`' {
        if i + 1 < s.len() {
            string_end(s, i + 2, q)
        } else {
            None
        }
    } else if s[i] == q {
        Some(i + 1)
    } else {
        string_end(s, i + 1, q)
    }
}

fn find_string_end(s: &Vec<char>, i: usize, q: char) -> (r: Option<usize>)
    requires
        i <= s.len(),
    ensures
        match r {
            Some(j) => string_end(s@, i as int, q) == Some(j as int) && i < j <= s.len(),
            None => string_end(s@, i as int, q) is None,
        },
{
    let mut j: usize = i;
    while j < s.len()
        invariant
            i <= j <= s.len(),
            string_end(s@, i as int, q) == string_end(s@, j as int, q),
        decreases s.len() - j,
    {
        if s[j] == '\\' && q != '`' {
            if j + 1 < s.len() {
                j += 2;
            } else {
                return None;
            }
        } else if s[j] == q {
            return Some(j + 1);
        } else {
            j += 1;
        }
    }
    None
}

// ---------------------------------------------------------------------------
// Numerals and signs
// ---------------------------------------------------------------------------

/// Where the fraction of a numeral ends, if there is one.
pub open spec fn fraction_end(s: Seq<char>, i: int) -> int {
    if char_at(s, i, '.') && class_at(s, i + 1, CharClass::Digit) {
        run_end(s, i + 1, CharClass::Digit)
    } else {
        i
    }
}

/// Where the exponent of a numeral ends, if there is one.
pub open spec fn exponent_end(s: Seq<char>, i: int) -> int {
    if char_at(s, i, 'e') || char_at(s, i, 'E') {
        let j = if char_at(s, i + 1, '+') || char_at(s, i + 1, '-') {
            i + 2
        } else {
            i + 1
        };
        if class_at(s, j, CharClass::Digit) {
            run_end(s, j, CharClass::Digit)
        } else {
            i
        }
    } else {
        i
    }
}

/// The numeral at a place, and the place behind it.
pub open spec fn numeral_at(s: Seq<char>, i: int) -> (TokV, int) {
    if char_at(s, i, '0') && (char_at(s, i + 1, 'x') || char_at(s, i + 1, 'X')) && class_at(
        s,
        i + 2,
        CharClass::HexDigit,
    ) {
        let j = run_end(s, i + 2, CharClass::HexDigit);
        (TokV::Integer(s.subrange(i, j)), j)
    } else if char_at(s, i, '0') && (char_at(s, i + 1, 'o') || char_at(s, i + 1, 'O')) && class_at(
        s,
        i + 2,
        CharClass::OctalDigit,
    ) {
        let j = run_end(s, i + 2, CharClass::OctalDigit);
        (TokV::Integer(s.subrange(i, j)), j)
    } else {
        let whole = run_end(s, i, CharClass::Digit);
        let j = exponent_end(s, fraction_end(s, whole));
        if j == whole {
            (TokV::Integer(s.subrange(i, j)), j)
        } else {
            (TokV::Float(s.subrange(i, j)), j)
        }
    }
}

/// The sign at a place, and its length.
pub open spec fn sign_at(s: Seq<char>, i: int) -> Option<(Sign, int)> {
    if i < 0 || i >= s.len() {
        None
    } else if s[i] == '(' {
        Some((Sign::LParen, 1))
    } else if s[i] == ')' {
        Some((Sign::RParen, 1))
    } else if s[i] == '[' {
        Some((Sign::LBrack, 1))
    } else if s[i] == ']' {
        Some((Sign::RBrack, 1))
    } else if s[i] == '{' {
        Some((Sign::LBrace, 1))
    } else if s[i] == '}' {
        Some((Sign::RBrace, 1))
    } else if s[i] == ',' {
        Some((Sign::Comma, 1))
    } else if s[i] == ':' {
        Some((Sign::Colon, 1))
    } else if s[i] == '.' {
        if char_at(s, i + 1, '.') {
            Some((Sign::DotDot, 2))
        } else {
            Some((Sign::Dot, 1))
        }
    } else if s[i] == '|' {
        Some((Sign::Pipe, 1))
    } else if s[i] == '+' {
        if char_at(s, i + 1, '=') {
            Some((Sign::PlusEq, 2))
        } else {
            Some((Sign::Plus, 1))
        }
    } else if s[i] == '-' {
        Some((Sign::Minus, 1))
    } else if s[i] == '*' {
        Some((Sign::Star, 1))
    } else if s[i] == '/' {
        Some((Sign::Slash, 1))
    } else if s[i] == '%' {
        Some((Sign::Percent, 1))
    } else if s[i] == '^' {
        Some((Sign::Caret, 1))
    } else if s[i] == '=' {
        if char_at(s, i + 1, '~') {
            Some((Sign::Like, 2))
        } else {
            Some((Sign::Eq, 1))
        }
    } else if s[i] == '<' {
        if char_at(s, i + 1, '>') {
            Some((Sign::Neq, 2))
        } else if char_at(s, i + 1, '=') {
            Some((Sign::Le, 2))
        } else {
            Some((Sign::Lt, 1))
        }
    } else if s[i] == '>' {
        if char_at(s, i + 1, '=') {
            Some((Sign::Ge, 2))
        } else {
            Some((Sign::Gt, 1))
        }
    } else if s[i] == ';' {
        Some((Sign::Semi, 1))
    } else if s[i] == '$' {
        Some((Sign::Dollar, 1))
    } else {
        None
    }
}

fn find_fraction_end(s: &Vec<char>, i: usize) -> (r: usize)
    requires
        i <= s.len(),
    ensures
        r == fraction_end(s@, i as int),
        i <= r <= s.len(),
{
    if i < s.len() && has_char(s, i, '.') && has_class(s, i + 1, CharClass::Digit) {
        find_run_end(s, i + 1, CharClass::Digit)
    } else {
        i
    }
}

fn find_exponent_end(s: &Vec<char>, i: usize) -> (r: usize)
    requires
        i <= s.len(),
    ensures
        r == exponent_end(s@, i as int),
        i <= r <= s.len(),
{
    if i < s.len() && (has_char(s, i, 'e') || has_char(s, i, 'E')) {
        let j = if i + 1 < s.len() && (has_char(s, i + 1, '+') || has_char(s, i + 1, '-')) {
            i + 2
        } else {
            i + 1
        };
        if has_class(s, j, CharClass::Digit) {
            find_run_end(s, j, CharClass::Digit)
        } else {
            i
        }
    } else {
        i
    }
}

fn radix_mark(s: &Vec<char>, i: usize, a: char, b: char, k: CharClass) -> (r: bool)
    requires
        i < s.len(),
    ensures
        r == (char_at(s@, i as int, '0') && (char_at(s@, i + 1, a) || char_at(s@, i + 1, b))
            && class_at(s@, i + 2, k)),
        r ==> i + 2 < s.len(),
{
    if !has_char(s, i, '0') || !(has_char(s, i + 1, a) || has_char(s, i + 1, b)) {
        return false;
    }
    has_class(s, i + 2, k)
}

fn read_numeral(s: &Vec<char>, i: usize) -> (r: (Tok, usize))
    requires
        class_at(s@, i as int, CharClass::Digit),
    ensures
        (r.0@, r.1 as int) == numeral_at(s@, i as int),
        i < r.1 <= s.len(),
{
    if radix_mark(s, i, 'x', 'X', CharClass::HexDigit) {
        let j = find_run_end(s, i + 2, CharClass::HexDigit);
        return (Tok::Integer(slice_text(s, i, j)), j);
    }
    if radix_mark(s, i, 'o', 'O', CharClass::OctalDigit) {
        let j = find_run_end(s, i + 2, CharClass::OctalDigit);
        return (Tok::Integer(slice_text(s, i, j)), j);
    }
    let whole = find_run_end(s, i, CharClass::Digit);
    proof {
        assert(run_end(s@, i as int, CharClass::Digit) == run_end(
            s@,
            i + 1,
            CharClass::Digit,
        ));
        lemma_run_end(s@, i + 1, CharClass::Digit);
    }
    let j = find_exponent_end(s, find_fraction_end(s, whole));
    if j == whole {
        (Tok::Integer(slice_text(s, i, j)), j)
    } else {
        (Tok::Float(slice_text(s, i, j)), j)
    }
}

proof fn lemma_run_end(s: Seq<char>, i: int, k: CharClass)
    requires
        0 <= i <= s.len(),
    ensures
        i <= run_end(s, i, k) <= s.len(),
    decreases s.len() - i,
{
    if class_at(s, i, k) {
        lemma_run_end(s, i + 1, k);
    }
}

fn read_sign(s: &Vec<char>, i: usize) -> (r: Option<(Sign, usize)>)
    requires
        i < s.len(),
    ensures
        match r {
            Some((x, n)) => sign_at(s@, i as int) == Some((x, n as int)) && i + n <= s.len() && n
                > 0,
            None => sign_at(s@, i as int) is None,
        },
{
    let c = s[i];
    let eq = i + 1 < s.len() && s[i + 1] == '=';
    if c == '(' {
        Some((Sign::LParen, 1))
    } else if c == ')' {
        Some((Sign::RParen, 1))
    } else if c == '[' {
        Some((Sign::LBrack, 1))
    } else if c == ']' {
        Some((Sign::RBrack, 1))
    } else if c == '{' {
        Some((Sign::LBrace, 1))
    } else if c == '}' {
        Some((Sign::RBrace, 1))
    } else if c == ',' {
        Some((Sign::Comma, 1))
    } else if c == ':' {
        Some((Sign::Colon, 1))
    } else if c == '.' {
        if i + 1 < s.len() && s[i + 1] == '.' {
            Some((Sign::DotDot, 2))
        } else {
            Some((Sign::Dot, 1))
        }
    } else if c == '|' {
        Some((Sign::Pipe, 1))
    } else if c == '+' {
        if eq {
            Some((Sign::PlusEq, 2))
        } else {
            Some((Sign::Plus, 1))
        }
    } else if c == '-' {
        Some((Sign::Minus, 1))
    } else if c == '*' {
        Some((Sign::Star, 1))
    } else if c == '/' {
        Some((Sign::Slash, 1))
    } else if c == '%' {
        Some((Sign::Percent, 1))
    } else if c == '^' {
        Some((Sign::Caret, 1))
    } else if c == '=' {
        if i + 1 < s.len() && s[i + 1] == '~' {
            Some((Sign::Like, 2))
        } else {
            Some((Sign::Eq, 1))
        }
    } else if c == '<' {
        if i + 1 < s.len() && s[i + 1] == '>' {
            Some((Sign::Neq, 2))
        } else if eq {
            Some((Sign::Le, 2))
        } else {
            Some((Sign::Lt, 1))
        }
    } else if c == '>' {
        if eq {
            Some((Sign::Ge, 2))
        } else {
            Some((Sign::Gt, 1))
        }
    } else if c == ';' {
        Some((Sign::Semi, 1))
    } else if c == '$' {
        Some((Sign::Dollar, 1))
    } else {
        None
    }
}

// ---------------------------------------------------------------------------
// Tokens
// ---------------------------------------------------------------------------

/// An error at a place of the text.
pub open spec fn error_at(what: Seq<char>, i: int) -> ErrV {
    ErrV::Parse(what + " at position "@ + text::nat_text(i as nat))
}

pub fn make_error(what: &str, i: usize) -> (r: CypherError)
    ensures
        r@ == error_at(what@, i as int),
{
    CypherError::ParseError(
        join2(join2(what, " at position ").as_str(), u64_text(i as u64).as_str()),
    )
}

/// What stands at a place that is not blank, and the place behind it; a
/// comment is nothing.
pub open spec fn item_at(s: Seq<char>, i: int) -> Result<(Option<TokV>, int), ErrV> {
    if text::is_space(s[i]) {
        Ok((None, i + 1))
    } else if s[i] == '/' && char_at(s, i + 1, '/') {
        Ok((None, line_end(s, i + 2)))
    } else if s[i] == '/' && char_at(s, i + 1, '*') {
        match comment_end(s, i + 2) {
            Some(j) => Ok((None, j)),
            None => Err(error_at("Unterminated comment"@, i)),
        }
    } else if in_class(s[i], CharClass::WordStart) {
        let j = run_end(s, i, CharClass::WordPart);
        let w = s.subrange(i, j);
        Ok((Some(TokV::Word(w, keyword(text::upper_text(w)))), j))
    } else if in_class(s[i], CharClass::Digit) {
        let (t, j) = numeral_at(s, i);
        Ok((Some(t), j))
    } else if s[i] == '"' || s[i] == '\'' {
        match string_end(s, i + 1, s[i]) {
            Some(j) => Ok((Some(TokV::Text(s.subrange(i, j))), j)),
            None => Err(error_at("Unterminated string"@, i)),
        }
    } else if s[i] == '`' {
        match string_end(s, i + 1, '`') {
            Some(j) => Ok((Some(TokV::Quoted(s.subrange(i + 1, j - 1))), j)),
            None => Err(error_at("Unterminated name"@, i)),
        }
    } else {
        match sign_at(s, i) {
            Some((x, n)) => Ok((Some(TokV::Sign(x)), i + n)),
            None => Err(error_at("Unexpected character"@, i)),
        }
    }
}

/// The tokens from a place on, behind those that are there already.
pub open spec fn tokens_from(s: Seq<char>, i: int, acc: Seq<TokenV>) -> Result<Seq<TokenV>, ErrV>
    decreases s.len() - i,
{
    if i < 0 || i >= s.len() {
        Ok(acc)
    } else {
        match item_at(s, i) {
            Err(x) => Err(x),
            Ok((t, j)) => if j <= i || j > s.len() {
                Ok(acc)
            } else {
                tokens_from(
                    s,
                    j,
                    match t {
                        Some(tok) => acc.push(TokenV { tok, at: i as usize }),
                        None => acc,
                    },
                )
            },
        }
    }
}

/// The tokens of a text.
pub open spec fn tokens_of(s: Seq<char>) -> Result<Seq<TokenV>, ErrV> {
    tokens_from(s, 0, seq![])
}

fn read_item(s: &Vec<char>, i: usize) -> (r: Result<(Option<Tok>, usize), CypherError>)
    requires
        i < s.len(),
    ensures
        match r {
            Ok((t, j)) => item_at(s@, i as int) == Ok::<(Option<TokV>, int), ErrV>(
                (
                    match t {
                        Some(x) => Some(x@),
                        None => None,
                    },
                    j as int,
                ),
            ) && i < j <= s.len(),
            Err(e) => item_at(s@, i as int) == Err::<(Option<TokV>, int), ErrV>(e@),
        },
{
    let c = s[i];
    if is_space_char(c) {
        return Ok((None, i + 1));
    }
    if c == '/' && i + 1 < s.len() && s[i + 1] == '/' {
        return Ok((None, find_line_end(s, i + 2)));
    }
    if c == '/' && i + 1 < s.len() && s[i + 1] == '*' {
        return match find_comment_end(s, i + 2) {
            Some(j) => Ok((None, j)),
            None => Err(make_error("Unterminated comment", i)),
        };
    }
    if is_in_class(c, CharClass::WordStart) {
        proof {
            assert(run_end(s@, i as int, CharClass::WordPart) == run_end(
                s@,
                i + 1,
                CharClass::WordPart,
            ));
            lemma_run_end(s@, i + 1, CharClass::WordPart);
        }
        let j = find_run_end(s, i, CharClass::WordPart);
        let w = slice_text(s, i, j);
        let k = find_keyword(uppercase(w.as_str()).as_str());
        return Ok((Some(Tok::Word(w, k)), j));
    }
    if is_in_class(c, CharClass::Digit) {
        let (t, j) = read_numeral(s, i);
        return Ok((Some(t), j));
    }
    if c == '"' || c == '\'' {
        return match find_string_end(s, i + 1, c) {
            Some(j) => Ok((Some(Tok::Text(slice_text(s, i, j))), j)),
            None => Err(make_error("Unterminated string", i)),
        };
    }
    if c == '`' {
        return match find_string_end(s, i + 1, '`') {
            Some(j) => Ok((Some(Tok::Quoted(slice_text(s, i + 1, j - 1))), j)),
            None => Err(make_error("Unterminated name", i)),
        };
    }
    match read_sign(s, i) {
        Some((x, n)) => Ok((Some(Tok::Sign(x)), i + n)),
        None => Err(make_error("Unexpected character", i)),
    }
}

/// The view of tokens or an error.
pub open spec fn tokens_outcome(r: Result<Vec<Token>, CypherError>) -> Result<Seq<TokenV>, ErrV> {
    match r {
        Ok(v) => Ok(tokens_view(v@)),
        Err(e) => Err(e@),
    }
}

/// Splits a text into tokens.
pub fn tokenize(input: &str) -> (r: Result<Vec<Token>, CypherError>)
    ensures
        tokens_outcome(r) == tokens_of(input@),
{
    let s = chars_of(input);
    let mut out: Vec<Token> = Vec::new();
    proof {
        assert(tokens_view(out@) =~= Seq::<TokenV>::empty());
    }
    let mut i: usize = 0;
    while i < s.len()
        invariant
            s@ == input@,
            i <= s.len(),
            tokens_of(input@) == tokens_from(s@, i as int, tokens_view(out@)),
        decreases s.len() - i,
    {
        let (t, j) = read_item(&s, i)?;
        if let Some(tok) = t {
            let token = Token { tok, at: i };
            proof {
                assert(tokens_view(out@.push(token)) =~= tokens_view(out@).push(token@));
            }
            out.push(token);
        }
        i = j;
    }
    Ok(out)
}

} // verus!
