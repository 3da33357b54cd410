//! The grammar of clauses and statements, and the way from the text of a
//! query to its statement.
use crate::ast::{
    self, Clause, ClauseV, ConstraintType, CreateClause, CreateConstraintStatement, DeleteClause,
    Expression, ExprV, ItemV, LoadCsvClause, MatchClause, MatchKind, MergeClause, PartV, Pattern,
    PatternElement, PatternPart, PatternV, ProjV, PropertyTypeKind, Query, RemoveClause,
    RemoveItem, RemoveV, ReturnClause, ReturnItem, SetClause, SetItem, SetV, SortItem, SortV,
    Statement, StmtV, UnwindClause, WhereClause, WithClause,
};
use crate::error::{CypherError, ErrV};
use crate::grammar::{
    self, fail, is_kw, is_sign, peek_kw, peek_name, peek_variable, FoundV,
};
use crate::lexer::{self, tokenize, Kw, Sign, Token, TokenV};
use crate::parsing::{parse_expression, parse_expressions, parse_labels, parse_pattern_element};
use crate::text;
use vstd::prelude::*;

verus! {

// ---------------------------------------------------------------------------
// The rules of clauses
// ---------------------------------------------------------------------------

/// The variable that a pattern begins with.
pub open spec fn start_variable(p: PatternV) -> Option<Seq<char>> {
    match p {
        PatternV::Node(n) => n.variable,
        PatternV::Chain { start, .. } => start.variable,
        _ => None,
    }
}

/// A pattern with a variable for it.
pub open spec fn part(ts: Seq<TokenV>, i: int) -> FoundV<PartV> {
    if grammar::variable(ts, i) is Some && grammar::sign(ts, i + 1) == Some(Sign::Eq) {
        match grammar::pattern(ts, i + 2) {
            Ok((element, k)) => Ok((PartV { variable: grammar::variable(ts, i), element }, k)),
            Err(x) => Err(x),
        }
    } else {
        match grammar::pattern(ts, i) {
            Ok((element, k)) => Ok((PartV { variable: start_variable(element), element }, k)),
            Err(x) => Err(x),
        }
    }
}

/// Patterns with commas between them, behind those that are there already.
pub open spec fn parts(ts: Seq<TokenV>, i: int, acc: Seq<PartV>) -> FoundV<Seq<PartV>>
    decreases ts.len() - i,
{
    match grammar::held(ts, i, part(ts, i)) {
        Err(x) => Err(x),
        Ok((p, k)) => if grammar::sign(ts, k) == Some(Sign::Comma) {
            parts(ts, k + 1, acc.push(p))
        } else {
            Ok((acc.push(p), k))
        },
    }
}

/// An item of RETURN or WITH.
pub open spec fn item(ts: Seq<TokenV>, i: int) -> FoundV<ItemV> {
    match grammar::held(ts, i, grammar::expr(ts, i)) {
        Err(x) => Err(x),
        Ok((expression, k)) => if grammar::kw(ts, k) == Kw::As {
            match grammar::variable(ts, k + 1) {
                Some(a) => Ok((ItemV { expression, alias: Some(a) }, k + 2)),
                None => Err(grammar::stuck(ts, k + 1)),
            }
        } else {
            Ok((ItemV { expression, alias: None }, k))
        },
    }
}

/// Items with commas between them, behind those that are there already.
pub open spec fn item_list(ts: Seq<TokenV>, i: int, acc: Seq<ItemV>) -> FoundV<Seq<ItemV>>
    decreases ts.len() - i,
{
    match grammar::held(ts, i, item(ts, i)) {
        Err(x) => Err(x),
        Ok((x, k)) => if grammar::sign(ts, k) == Some(Sign::Comma) {
            item_list(ts, k + 1, acc.push(x))
        } else {
            Ok((acc.push(x), k))
        },
    }
}

/// A star, or items.
pub open spec fn items(ts: Seq<TokenV>, i: int) -> FoundV<Seq<ItemV>> {
    if grammar::sign(ts, i) == Some(Sign::Star) {
        Ok((seq![ItemV { expression: ExprV::Variable("*"@), alias: None }], i + 1))
    } else {
        item_list(ts, i, seq![])
    }
}

/// What rows are sorted by.
pub open spec fn sort(ts: Seq<TokenV>, i: int) -> FoundV<SortV> {
    match grammar::held(ts, i, grammar::expr(ts, i)) {
        Err(x) => Err(x),
        Ok((expression, k)) => {
            let w = grammar::kw(ts, k);
            if w == Kw::Asc || w == Kw::Ascending {
                Ok((SortV { expression, ascending: true }, k + 1))
            } else if w == Kw::Desc || w == Kw::Descending {
                Ok((SortV { expression, ascending: false }, k + 1))
            } else {
                Ok((SortV { expression, ascending: true }, k))
            }
        },
    }
}

pub open spec fn sorts(ts: Seq<TokenV>, i: int, acc: Seq<SortV>) -> FoundV<Seq<SortV>>
    decreases ts.len() - i,
{
    match grammar::held(ts, i, sort(ts, i)) {
        Err(x) => Err(x),
        Ok((x, k)) => if grammar::sign(ts, k) == Some(Sign::Comma) {
            sorts(ts, k + 1, acc.push(x))
        } else {
            Ok((acc.push(x), k))
        },
    }
}

/// ORDER BY, if it is there.
pub open spec fn order(ts: Seq<TokenV>, i: int) -> FoundV<Option<Seq<SortV>>> {
    if grammar::kw(ts, i) == Kw::Order && grammar::kw(ts, i + 1) == Kw::By {
        match sorts(ts, i + 2, seq![]) {
            Ok((s, k)) => Ok((Some(s), k)),
            Err(x) => Err(x),
        }
    } else {
        Ok((None, i))
    }
}

/// An expression behind a keyword, if that is there.
pub open spec fn behind(ts: Seq<TokenV>, i: int, w: Kw) -> FoundV<Option<ExprV>> {
    if w != Kw::Other && grammar::kw(ts, i) == w {
        match grammar::expr(ts, i + 1) {
            Ok((e, k)) => Ok((Some(e), k)),
            Err(x) => Err(x),
        }
    } else {
        Ok((None, i))
    }
}

/// What RETURN and WITH have in common.
pub open spec fn projection(ts: Seq<TokenV>, i: int) -> FoundV<ProjV> {
    let distinct = grammar::kw(ts, i) == Kw::Distinct;
    match items(
        ts,
        if distinct {
            i + 1
        } else {
            i
        },
    ) {
        Err(x) => Err(x),
        Ok((its, j)) => match order(ts, j) {
            Err(x) => Err(x),
            Ok((order_by, k)) => match behind(ts, k, Kw::Skip) {
                Err(x) => Err(x),
                Ok((skip, m)) => match behind(ts, m, Kw::Limit) {
                    Err(x) => Err(x),
                    Ok((limit, q)) => Ok(
                        (ProjV { items: its, distinct, order_by, skip, limit }, q),
                    ),
                },
            },
        },
    }
}

/// An item of SET.
pub open spec fn set_item(ts: Seq<TokenV>, i: int) -> FoundV<SetV> {
    match grammar::variable(ts, i) {
        None => Err(grammar::stuck(ts, i)),
        Some(v) => if grammar::sign(ts, i + 1) == Some(Sign::Dot) {
            match grammar::name(ts, i + 2) {
                None => Err(grammar::stuck(ts, i + 2)),
                Some(property) => if grammar::sign(ts, i + 3) == Some(Sign::Eq) {
                    match grammar::expr(ts, i + 4) {
                        Ok((expression, k)) => Ok(
                            (SetV::Property { variable: v, property, expression }, k),
                        ),
                        Err(x) => Err(x),
                    }
                } else {
                    Err(grammar::stuck(ts, i + 3))
                },
            }
        } else if grammar::sign(ts, i + 1) == Some(Sign::PlusEq) {
            match grammar::expr(ts, i + 2) {
                Ok((expression, k)) => Ok((SetV::MergeProperties { variable: v, expression }, k)),
                Err(x) => Err(x),
            }
        } else if grammar::sign(ts, i + 1) == Some(Sign::Eq) {
            match grammar::expr(ts, i + 2) {
                Ok((expression, k)) => Ok((SetV::AllProperties { variable: v, expression }, k)),
                Err(x) => Err(x),
            }
        } else {
            let (labels, k) = grammar::labels(ts, i + 1, seq![]);
            if labels.len() > 0 {
                Ok((SetV::Label { variable: v, labels }, k))
            } else {
                Err(grammar::stuck(ts, i + 1))
            }
        },
    }
}

pub open spec fn set_items(ts: Seq<TokenV>, i: int, acc: Seq<SetV>) -> FoundV<Seq<SetV>>
    decreases ts.len() - i,
{
    match grammar::held(ts, i, set_item(ts, i)) {
        Err(x) => Err(x),
        Ok((x, k)) => if grammar::sign(ts, k) == Some(Sign::Comma) {
            set_items(ts, k + 1, acc.push(x))
        } else {
            Ok((acc.push(x), k))
        },
    }
}

/// An item of REMOVE.
pub open spec fn remove_item(ts: Seq<TokenV>, i: int) -> FoundV<RemoveV> {
    match grammar::variable(ts, i) {
        None => Err(grammar::stuck(ts, i)),
        Some(v) => if grammar::sign(ts, i + 1) == Some(Sign::Dot) {
            match grammar::name(ts, i + 2) {
                Some(property) => Ok((RemoveV::Property { variable: v, property }, i + 3)),
                None => Err(grammar::stuck(ts, i + 2)),
            }
        } else {
            let (labels, k) = grammar::labels(ts, i + 1, seq![]);
            if labels.len() > 0 {
                Ok((RemoveV::Label { variable: v, labels }, k))
            } else {
                Err(grammar::stuck(ts, i + 1))
            }
        },
    }
}

pub open spec fn remove_items(ts: Seq<TokenV>, i: int, acc: Seq<RemoveV>) -> FoundV<Seq<RemoveV>>
    decreases ts.len() - i,
{
    match grammar::held(ts, i, remove_item(ts, i)) {
        Err(x) => Err(x),
        Ok((x, k)) => if grammar::sign(ts, k) == Some(Sign::Comma) {
            remove_items(ts, k + 1, acc.push(x))
        } else {
            Ok((acc.push(x), k))
        },
    }
}

/// What MERGE does with what it creates and with what it finds.
pub type ActionsV = (Option<Seq<SetV>>, Option<Seq<SetV>>);

/// ON CREATE SET and ON MATCH SET, as often as they come; the last of each
/// counts.
pub open spec fn actions(ts: Seq<TokenV>, i: int, acc: ActionsV) -> FoundV<ActionsV>
    decreases ts.len() - i,
{
    if grammar::kw(ts, i) == Kw::On && (grammar::kw(ts, i + 1) == Kw::Create || grammar::kw(
        ts,
        i + 1,
    ) == Kw::Match) && grammar::kw(ts, i + 2) == Kw::SetTo {
        match grammar::held(ts, i + 3, set_items(ts, i + 3, seq![])) {
            Err(x) => Err(x),
            Ok((s, k)) => actions(
                ts,
                k,
                if grammar::kw(ts, i + 1) == Kw::Create {
                    (Some(s), acc.1)
                } else {
                    (acc.0, Some(s))
                },
            ),
        }
    } else {
        Ok((acc, i))
    }
}

/// The clause that merges a pattern.
#[verifier::opaque]
pub open spec fn merge_clause(element: PatternV, a: ActionsV) -> ClauseV {
    ClauseV::Merge {
        parts: seq![PartV { variable: start_variable(element), element }],
        on_create: a.0,
        on_match: a.1,
    }
}

/// MERGE, behind that word.
pub open spec fn merge(ts: Seq<TokenV>, i: int) -> FoundV<ClauseV> {
    match grammar::held(ts, i, grammar::pattern(ts, i)) {
        Err(x) => Err(x),
        Ok((element, k)) => match actions(ts, k, (None, None)) {
            Err(x) => Err(x),
            Ok((a, m)) => Ok((merge_clause(element, a), m)),
        },
    }
}

/// UNWIND, behind that word.
pub open spec fn unwind(ts: Seq<TokenV>, i: int) -> FoundV<ClauseV> {
    match grammar::held(ts, i, grammar::expr(ts, i)) {
        Err(x) => Err(x),
        Ok((e, k)) => if grammar::kw(ts, k) == Kw::As {
            match grammar::variable(ts, k + 1) {
                Some(a) => Ok((ClauseV::Unwind(e, a), k + 2)),
                None => Err(grammar::stuck(ts, k + 1)),
            }
        } else {
            Err(grammar::stuck(ts, k))
        },
    }
}

/// LOAD CSV, behind these words.
pub open spec fn load(ts: Seq<TokenV>, i: int) -> FoundV<ClauseV> {
    let with_headers = grammar::kw(ts, i) == Kw::With && grammar::kw(ts, i + 1) == Kw::Headers;
    let j = if with_headers {
        i + 2
    } else {
        i
    };
    if grammar::kw(ts, j) != Kw::From {
        Err(grammar::stuck(ts, j))
    } else {
        match grammar::held(ts, j + 1, grammar::expr(ts, j + 1)) {
            Err(x) => Err(x),
            Ok((url, k)) => if grammar::kw(ts, k) != Kw::As {
                Err(grammar::stuck(ts, k))
            } else {
                match grammar::variable(ts, k + 1) {
                    None => Err(grammar::stuck(ts, k + 1)),
                    Some(alias) => match behind(ts, k + 2, Kw::Fieldterminator) {
                        Err(x) => Err(x),
                        Ok((field_terminator, m)) => Ok(
                            (ClauseV::LoadCsv { url, alias, with_headers, field_terminator }, m),
                        ),
                    },
                }
            },
        }
    }
}

/// MATCH of a kind, behind these words.
pub open spec fn match_parts(ts: Seq<TokenV>, i: int, kind: MatchKind) -> FoundV<ClauseV> {
    match parts(ts, i, seq![]) {
        Ok((ps, k)) => Ok((ClauseV::Match(ps, kind), k)),
        Err(x) => Err(x),
    }
}

/// DELETE, behind that word.
pub open spec fn delete(ts: Seq<TokenV>, i: int, detach: bool) -> FoundV<ClauseV> {
    match grammar::exprs(ts, i, seq![]) {
        Ok((es, k)) => Ok((ClauseV::Delete(detach, es), k)),
        Err(x) => Err(x),
    }
}

/// WITH, behind that word.
pub open spec fn with_clause(ts: Seq<TokenV>, i: int) -> FoundV<ClauseV> {
    match projection(ts, i) {
        Err(x) => Err(x),
        Ok((p, k)) => match behind(ts, k, Kw::Where) {
            Ok((e, m)) => Ok((ClauseV::With(p, e), m)),
            Err(x) => Err(x),
        },
    }
}

/// A clause.
pub open spec fn clause(ts: Seq<TokenV>, i: int) -> FoundV<ClauseV> {
    let w = grammar::kw(ts, i);
    if w == Kw::Create {
        match parts(ts, i + 1, seq![]) {
            Ok((ps, k)) => Ok((ClauseV::Create(ps), k)),
            Err(x) => Err(x),
        }
    } else if w == Kw::Match {
        match_parts(ts, i + 1, MatchKind::Regular)
    } else if w == Kw::Optional && grammar::kw(ts, i + 1) == Kw::Match {
        match_parts(ts, i + 2, MatchKind::Optional)
    } else if w == Kw::Mandatory && grammar::kw(ts, i + 1) == Kw::Match {
        match_parts(ts, i + 2, MatchKind::Mandatory)
    } else if w == Kw::Return {
        match projection(ts, i + 1) {
            Ok((p, k)) => Ok((ClauseV::Return(p), k)),
            Err(x) => Err(x),
        }
    } else if w == Kw::Where {
        match grammar::expr(ts, i + 1) {
            Ok((e, k)) => Ok((ClauseV::Where(e), k)),
            Err(x) => Err(x),
        }
    } else if w == Kw::With {
        with_clause(ts, i + 1)
    } else if w == Kw::Unwind {
        unwind(ts, i + 1)
    } else if w == Kw::Load && grammar::kw(ts, i + 1) == Kw::Csv {
        load(ts, i + 2)
    } else if w == Kw::SetTo {
        match set_items(ts, i + 1, seq![]) {
            Ok((s, k)) => Ok((ClauseV::SetItems(s), k)),
            Err(x) => Err(x),
        }
    } else if w == Kw::Remove {
        match remove_items(ts, i + 1, seq![]) {
            Ok((s, k)) => Ok((ClauseV::Remove(s), k)),
            Err(x) => Err(x),
        }
    } else if w == Kw::Delete {
        delete(ts, i + 1, false)
    } else if w == Kw::Detach && grammar::kw(ts, i + 1) == Kw::Delete {
        delete(ts, i + 2, true)
    } else if w == Kw::Merge {
        merge(ts, i + 1)
    } else {
        Err(grammar::stuck(ts, i))
    }
}

/// A clause may begin with a keyword.
pub open spec fn begins_clause(w: Kw) -> bool {
    ||| w == Kw::Create
    ||| w == Kw::Match
    ||| w == Kw::Optional
    ||| w == Kw::Mandatory
    ||| w == Kw::Return
    ||| w == Kw::Where
    ||| w == Kw::With
    ||| w == Kw::Unwind
    ||| w == Kw::Load
    ||| w == Kw::SetTo
    ||| w == Kw::Remove
    ||| w == Kw::Delete
    ||| w == Kw::Detach
    ||| w == Kw::Merge
}

/// Clauses, behind those that are there already.
pub open spec fn clauses(ts: Seq<TokenV>, i: int, acc: Seq<ClauseV>) -> FoundV<Seq<ClauseV>>
    decreases ts.len() - i,
{
    if begins_clause(grammar::kw(ts, i)) {
        match grammar::held(ts, i, clause(ts, i)) {
            Ok((c, k)) => clauses(ts, k, acc.push(c)),
            Err(x) => Err(x),
        }
    } else if acc.len() == 0 {
        Err(grammar::stuck(ts, i))
    } else {
        Ok((acc, i))
    }
}

/// A statement joined to a query by UNION.
#[verifier::opaque]
pub open spec fn joined(left: StmtV, clauses: Seq<ClauseV>, all: bool) -> StmtV {
    StmtV::Union { left: Box::new(left), right: Box::new(StmtV::Query(clauses)), all }
}

/// Queries joined by UNION, behind the first.
pub open spec fn union_rest(ts: Seq<TokenV>, i: int, left: StmtV) -> FoundV<StmtV>
    decreases ts.len() - i,
{
    if grammar::kw(ts, i) == Kw::Union {
        let all = grammar::kw(ts, i + 1) == Kw::All;
        let j = if all {
            i + 2
        } else {
            i + 1
        };
        match grammar::held(ts, j, clauses(ts, j, seq![])) {
            Err(x) => Err(x),
            Ok((cs, k)) => union_rest(ts, k, joined(left, cs, all)),
        }
    } else {
        Ok((left, i))
    }
}

/// Properties of a variable with commas between them, behind those that are
/// there already, up to a closing bracket.
pub open spec fn key_props(ts: Seq<TokenV>, i: int, acc: Seq<Seq<char>>) -> FoundV<Seq<Seq<char>>>
    decreases ts.len() - i,
{
    if grammar::variable(ts, i) is None {
        Err(grammar::stuck(ts, i))
    } else if grammar::sign(ts, i + 1) != Some(Sign::Dot) {
        Err(grammar::stuck(ts, i + 1))
    } else {
        match grammar::name(ts, i + 2) {
            None => Err(grammar::stuck(ts, i + 2)),
            Some(p) => if grammar::sign(ts, i + 3) == Some(Sign::Comma) {
                key_props(ts, i + 4, acc.push(p))
            } else if grammar::sign(ts, i + 3) == Some(Sign::RParen) {
                Ok((acc.push(p), i + 4))
            } else {
                Err(grammar::stuck(ts, i + 3))
            },
        }
    }
}

/// What a constraint is on: a property of a variable, or several in brackets.
pub open spec fn subject(ts: Seq<TokenV>, i: int) -> FoundV<Seq<Seq<char>>> {
    if grammar::sign(ts, i) == Some(Sign::LParen) {
        key_props(ts, i + 1, seq![])
    } else if grammar::variable(ts, i) is None {
        Err(grammar::stuck(ts, i))
    } else if grammar::sign(ts, i + 1) != Some(Sign::Dot) {
        Err(grammar::stuck(ts, i + 1))
    } else {
        match grammar::name(ts, i + 2) {
            None => Err(grammar::stuck(ts, i + 2)),
            Some(p) => Ok((seq![p], i + 3)),
        }
    }
}

/// The type that a keyword names.
pub open spec fn type_kind(w: Kw) -> Option<PropertyTypeKind> {
    if w == Kw::Boolean {
        Some(PropertyTypeKind::Boolean)
    } else if w == Kw::Text {
        Some(PropertyTypeKind::String)
    } else if w == Kw::Integer {
        Some(PropertyTypeKind::Integer)
    } else if w == Kw::Float {
        Some(PropertyTypeKind::Float)
    } else {
        None
    }
}

/// What a constraint demands: IS UNIQUE, IS NOT NULL, IS NODE KEY, and IS
/// TYPED or IS :: with a type.
pub open spec fn demand(ts: Seq<TokenV>, i: int) -> FoundV<ConstraintType> {
    if grammar::kw(ts, i) != Kw::Is {
        Err(grammar::stuck(ts, i))
    } else if grammar::kw(ts, i + 1) == Kw::Unique {
        Ok((ConstraintType::Unique, i + 2))
    } else if grammar::kw(ts, i + 1) == Kw::Not && grammar::kw(ts, i + 2) == Kw::Null {
        Ok((ConstraintType::NotNull, i + 3))
    } else if grammar::kw(ts, i + 1) == Kw::Node && grammar::kw(ts, i + 2) == Kw::Key {
        Ok((ConstraintType::NodeKey, i + 3))
    } else if grammar::kw(ts, i + 1) == Kw::Typed && type_kind(grammar::kw(ts, i + 2)) is Some {
        Ok((ConstraintType::PropertyType(type_kind(grammar::kw(ts, i + 2)).unwrap()), i + 3))
    } else if grammar::sign(ts, i + 1) == Some(Sign::Colon) && grammar::sign(ts, i + 2) == Some(
        Sign::Colon,
    ) && type_kind(grammar::kw(ts, i + 3)) is Some {
        Ok((ConstraintType::PropertyType(type_kind(grammar::kw(ts, i + 3)).unwrap()), i + 4))
    } else {
        Err(grammar::stuck(ts, i + 1))
    }
}

/// CREATE CONSTRAINT, behind these words and a name that may follow them.
pub open spec fn constraint(ts: Seq<TokenV>, i: int) -> FoundV<StmtV> {
    if grammar::kw(ts, i) != Kw::For {
        Err(grammar::stuck(ts, i))
    } else if grammar::sign(ts, i + 1) != Some(Sign::LParen) {
        Err(grammar::stuck(ts, i + 1))
    } else if grammar::variable(ts, i + 2) is None {
        Err(grammar::stuck(ts, i + 2))
    } else if grammar::sign(ts, i + 3) != Some(Sign::Colon) {
        Err(grammar::stuck(ts, i + 3))
    } else if grammar::name(ts, i + 4) is None {
        Err(grammar::stuck(ts, i + 4))
    } else if grammar::sign(ts, i + 5) != Some(Sign::RParen) {
        Err(grammar::stuck(ts, i + 5))
    } else if grammar::kw(ts, i + 6) != Kw::Require {
        Err(grammar::stuck(ts, i + 6))
    } else {
        match subject(ts, i + 7) {
            Err(x) => Err(x),
            Ok((properties, k)) => match demand(ts, k) {
                Err(x) => Err(x),
                Ok((constraint_type, m)) => Ok(
                    (
                        StmtV::CreateConstraint {
                            variable: grammar::variable(ts, i + 2).unwrap(),
                            label: grammar::name(ts, i + 4).unwrap(),
                            properties,
                            constraint_type,
                        },
                        m,
                    ),
                ),
            },
        }
    }
}

/// A statement, and the place behind it.
pub open spec fn body(ts: Seq<TokenV>) -> FoundV<StmtV> {
    if grammar::kw(ts, 0) == Kw::Create && grammar::kw(ts, 1) == Kw::Constraint {
        if grammar::kw(ts, 2) != Kw::For && grammar::name(ts, 2) is Some {
            constraint(ts, 3)
        } else {
            constraint(ts, 2)
        }
    } else {
        match clauses(ts, 0, seq![]) {
            Err(x) => Err(x),
            Ok((cs, k)) => union_rest(ts, k, StmtV::Query(cs)),
        }
    }
}

/// The statement that tokens are. A semicolon may end it, and nothing else
/// may follow.
pub open spec fn statement(ts: Seq<TokenV>) -> Result<StmtV, ErrV> {
    if ts.len() == 0 {
        Err(ErrV::Parse("Empty statement"@))
    } else {
        match body(ts) {
            Err(x) => Err(x),
            Ok((s, k)) => {
                let end = if grammar::sign(ts, k) == Some(Sign::Semi) {
                    k + 1
                } else {
                    k
                };
                if end == ts.len() {
                    Ok(s)
                } else {
                    Err(grammar::stuck(ts, end))
                }
            },
        }
    }
}

/// The statement that a text is.
pub open spec fn statement_of(input: Seq<char>) -> Result<StmtV, ErrV> {
    match lexer::tokens_of(input) {
        Ok(ts) => statement(ts),
        Err(x) => Err(x),
    }
}

// ---------------------------------------------------------------------------
// The parser
// ---------------------------------------------------------------------------

/// The view of a pattern with its variable.
pub open spec fn found_part(r: Result<(PatternPart, usize), CypherError>) -> FoundV<PartV> {
    match r {
        Ok((x, k)) => Ok((x@, k as int)),
        Err(e) => Err(e@),
    }
}

/// The view of patterns with their variables.
pub open spec fn found_parts(r: Result<(Vec<PatternPart>, usize), CypherError>) -> FoundV<Seq<PartV>> {
    match r {
        Ok((x, k)) => Ok((ast::parts_view(x@), k as int)),
        Err(e) => Err(e@),
    }
}

/// The view of an item.
pub open spec fn found_item(r: Result<(ReturnItem, usize), CypherError>) -> FoundV<ItemV> {
    match r {
        Ok((x, k)) => Ok((x@, k as int)),
        Err(e) => Err(e@),
    }
}

/// The view of items.
pub open spec fn found_items(r: Result<(Vec<ReturnItem>, usize), CypherError>) -> FoundV<Seq<ItemV>> {
    match r {
        Ok((x, k)) => Ok((ast::items_view(x@), k as int)),
        Err(e) => Err(e@),
    }
}

/// The view of what rows are sorted by.
pub open spec fn found_sort(r: Result<(SortItem, usize), CypherError>) -> FoundV<SortV> {
    match r {
        Ok((x, k)) => Ok((x@, k as int)),
        Err(e) => Err(e@),
    }
}

/// The view of what rows are sorted by, in turn.
pub open spec fn found_sorts(r: Result<(Vec<SortItem>, usize), CypherError>) -> FoundV<Seq<SortV>> {
    match r {
        Ok((x, k)) => Ok((ast::sorts_view(x@), k as int)),
        Err(e) => Err(e@),
    }
}

/// The view of what rows may be sorted by.
pub open spec fn found_order(r: Result<(Option<Vec<SortItem>>, usize), CypherError>) -> FoundV<Option<Seq<SortV>>> {
    match r {
        Ok((x, k)) => Ok((ast::opt_sorts(x), k as int)),
        Err(e) => Err(e@),
    }
}

/// The view of an expression that may be there.
pub open spec fn found_behind(r: Result<(Option<Expression>, usize), CypherError>) -> FoundV<Option<ExprV>> {
    match r {
        Ok((x, k)) => Ok((ast::maybe_expr(x), k as int)),
        Err(e) => Err(e@),
    }
}

/// The view of a projection.
pub open spec fn found_projection(r: Result<(ReturnClause, usize), CypherError>) -> FoundV<ProjV> {
    match r {
        Ok((x, k)) => Ok((x@, k as int)),
        Err(e) => Err(e@),
    }
}

/// The view of an item of SET.
pub open spec fn found_set(r: Result<(SetItem, usize), CypherError>) -> FoundV<SetV> {
    match r {
        Ok((x, k)) => Ok((x@, k as int)),
        Err(e) => Err(e@),
    }
}

/// The view of items of SET.
pub open spec fn found_sets(r: Result<(Vec<SetItem>, usize), CypherError>) -> FoundV<Seq<SetV>> {
    match r {
        Ok((x, k)) => Ok((ast::sets_view(x@), k as int)),
        Err(e) => Err(e@),
    }
}

/// The view of an item of REMOVE.
pub open spec fn found_remove(r: Result<(RemoveItem, usize), CypherError>) -> FoundV<RemoveV> {
    match r {
        Ok((x, k)) => Ok((x@, k as int)),
        Err(e) => Err(e@),
    }
}

/// The view of items of REMOVE.
pub open spec fn found_removes(r: Result<(Vec<RemoveItem>, usize), CypherError>) -> FoundV<Seq<RemoveV>> {
    match r {
        Ok((x, k)) => Ok((ast::removes_view(x@), k as int)),
        Err(e) => Err(e@),
    }
}

/// The view of the actions of MERGE.
pub open spec fn found_actions(r: Result<((Option<Vec<SetItem>>, Option<Vec<SetItem>>), usize), CypherError>) -> FoundV<ActionsV> {
    match r {
        Ok((x, k)) => Ok(((ast::opt_sets(x.0), ast::opt_sets(x.1)), k as int)),
        Err(e) => Err(e@),
    }
}

/// The view of a clause.
pub open spec fn found_clause(r: Result<(Clause, usize), CypherError>) -> FoundV<ClauseV> {
    match r {
        Ok((x, k)) => Ok((x@, k as int)),
        Err(e) => Err(e@),
    }
}

/// The view of clauses.
pub open spec fn found_clauses(r: Result<(Vec<Clause>, usize), CypherError>) -> FoundV<Seq<ClauseV>> {
    match r {
        Ok((x, k)) => Ok((ast::clauses_view(x@), k as int)),
        Err(e) => Err(e@),
    }
}

/// The view of a statement.
pub open spec fn found_statement(r: Result<(Statement, usize), CypherError>) -> FoundV<StmtV> {
    match r {
        Ok((x, k)) => Ok((x@, k as int)),
        Err(e) => Err(e@),
    }
}

/// The view of names.
pub open spec fn found_names(r: Result<(Vec<String>, usize), CypherError>) -> FoundV<Seq<Seq<char>>> {
    match r {
        Ok((x, k)) => Ok((text::texts_view(x@), k as int)),
        Err(e) => Err(e@),
    }
}

/// The view of what a constraint demands.
pub open spec fn found_demand(r: Result<(ConstraintType, usize), CypherError>) -> FoundV<ConstraintType> {
    match r {
        Ok((x, k)) => Ok((x, k as int)),
        Err(e) => Err(e@),
    }
}

fn first_variable(p: &PatternElement) -> (r: Option<String>)
    ensures
        ast::opt_text(r) == start_variable(p@),
{
    match p {
        PatternElement::Node(n) => ast::clone_opt_text(&n.variable),
        PatternElement::Chain { start, .. } => ast::clone_opt_text(&start.variable),
        _ => None,
    }
}

fn parse_pattern(ts: &Vec<Token>, i: usize) -> (r: Result<(PatternPart, usize), CypherError>)
    requires
        i <= ts.len(),
    ensures
        found_part(r) == part(lexer::tokens_view(ts@), i as int),
        r matches Ok((_, k)) ==> i < k <= ts.len(),
{
    if let Some(v) = peek_variable(ts, i) {
        if is_sign(ts, i + 1, Sign::Eq) {
            let (element, k) = parse_pattern_element(ts, i + 2)?;
            return Ok((PatternPart { variable: Some(v), element }, k));
        }
    }
    let (element, k) = parse_pattern_element(ts, i)?;
    Ok((PatternPart { variable: first_variable(&element), element }, k))
}

fn parse_pattern_list(ts: &Vec<Token>, i: usize) -> (r: Result<(Vec<PatternPart>, usize), CypherError>)
    requires
        i <= ts.len(),
    ensures
        found_parts(r) == parts(lexer::tokens_view(ts@), i as int, seq![]),
        r matches Ok((_, k)) ==> i < k <= ts.len(),
{
    let ghost want = parts(lexer::tokens_view(ts@), i as int, seq![]);
    let mut out: Vec<PatternPart> = Vec::new();
    proof {
        assert(ast::parts_view(out@) =~= Seq::<PartV>::empty());
    }
    let mut k = i;
    loop
        invariant
            i <= k <= ts.len(),
            want == parts(lexer::tokens_view(ts@), i as int, seq![]),
            want == parts(lexer::tokens_view(ts@), k as int, ast::parts_view(out@)),
        decreases ts.len() - k,
    {
        let (x, m) = parse_pattern(ts, k)?;
        proof {
            assert(ast::parts_view(out@.push(x)) =~= ast::parts_view(out@).push(x@));
        }
        out.push(x);
        if is_sign(ts, m, Sign::Comma) {
            k = m + 1;
        } else {
            return Ok((out, m));
        }
    }
}

fn parse_return_item(ts: &Vec<Token>, i: usize) -> (r: Result<(ReturnItem, usize), CypherError>)
    requires
        i <= ts.len(),
    ensures
        found_item(r) == item(lexer::tokens_view(ts@), i as int),
        r matches Ok((_, k)) ==> i < k <= ts.len(),
{
    let (expression, k) = parse_expression(ts, i)?;
    if is_kw(ts, k, Kw::As) {
        match peek_variable(ts, k + 1) {
            Some(a) => Ok((ReturnItem { expression, alias: Some(a) }, k + 2)),
            None => Err(fail(ts, k + 1)),
        }
    } else {
        Ok((ReturnItem { expression, alias: None }, k))
    }
}

fn parse_item_list(ts: &Vec<Token>, i: usize) -> (r: Result<(Vec<ReturnItem>, usize), CypherError>)
    requires
        i <= ts.len(),
    ensures
        found_items(r) == item_list(lexer::tokens_view(ts@), i as int, seq![]),
        r matches Ok((_, k)) ==> i < k <= ts.len(),
{
    let ghost want = item_list(lexer::tokens_view(ts@), i as int, seq![]);
    let mut out: Vec<ReturnItem> = Vec::new();
    proof {
        assert(ast::items_view(out@) =~= Seq::<ItemV>::empty());
    }
    let mut k = i;
    loop
        invariant
            i <= k <= ts.len(),
            want == item_list(lexer::tokens_view(ts@), i as int, seq![]),
            want == item_list(lexer::tokens_view(ts@), k as int, ast::items_view(out@)),
        decreases ts.len() - k,
    {
        let (x, m) = parse_return_item(ts, k)?;
        proof {
            assert(ast::items_view(out@.push(x)) =~= ast::items_view(out@).push(x@));
        }
        out.push(x);
        if is_sign(ts, m, Sign::Comma) {
            k = m + 1;
        } else {
            return Ok((out, m));
        }
    }
}

fn parse_return_items(ts: &Vec<Token>, i: usize) -> (r: Result<(Vec<ReturnItem>, usize), CypherError>)
    requires
        i <= ts.len(),
    ensures
        found_items(r) == items(lexer::tokens_view(ts@), i as int),
        r matches Ok((_, k)) ==> i < k <= ts.len(),
{
    if is_sign(ts, i, Sign::Star) {
        let expression = Expression::Variable("*".to_owned());
        proof {
            assert(expression@ == expression.parts());
        }
        let mut out: Vec<ReturnItem> = Vec::new();
        out.push(ReturnItem { expression, alias: None });
        proof {
            assert(ast::items_view(out@) =~= seq![
                ItemV { expression: ExprV::Variable("*"@), alias: None },
            ]);
        }
        Ok((out, i + 1))
    } else {
        parse_item_list(ts, i)
    }
}

fn parse_sort_item(ts: &Vec<Token>, i: usize) -> (r: Result<(SortItem, usize), CypherError>)
    requires
        i <= ts.len(),
    ensures
        found_sort(r) == sort(lexer::tokens_view(ts@), i as int),
        r matches Ok((_, k)) ==> i < k <= ts.len(),
{
    let (expression, k) = parse_expression(ts, i)?;
    match peek_kw(ts, k) {
        Kw::Asc => Ok((SortItem { expression, ascending: true }, k + 1)),
        Kw::Ascending => Ok((SortItem { expression, ascending: true }, k + 1)),
        Kw::Desc => Ok((SortItem { expression, ascending: false }, k + 1)),
        Kw::Descending => Ok((SortItem { expression, ascending: false }, k + 1)),
        _ => Ok((SortItem { expression, ascending: true }, k)),
    }
}

fn parse_sort_items(ts: &Vec<Token>, i: usize) -> (r: Result<(Vec<SortItem>, usize), CypherError>)
    requires
        i <= ts.len(),
    ensures
        found_sorts(r) == sorts(lexer::tokens_view(ts@), i as int, seq![]),
        r matches Ok((_, k)) ==> i < k <= ts.len(),
{
    let ghost want = sorts(lexer::tokens_view(ts@), i as int, seq![]);
    let mut out: Vec<SortItem> = Vec::new();
    proof {
        assert(ast::sorts_view(out@) =~= Seq::<SortV>::empty());
    }
    let mut k = i;
    loop
        invariant
            i <= k <= ts.len(),
            want == sorts(lexer::tokens_view(ts@), i as int, seq![]),
            want == sorts(lexer::tokens_view(ts@), k as int, ast::sorts_view(out@)),
        decreases ts.len() - k,
    {
        let (x, m) = parse_sort_item(ts, k)?;
        proof {
            assert(ast::sorts_view(out@.push(x)) =~= ast::sorts_view(out@).push(x@));
        }
        out.push(x);
        if is_sign(ts, m, Sign::Comma) {
            k = m + 1;
        } else {
            return Ok((out, m));
        }
    }
}

fn parse_order_by(ts: &Vec<Token>, i: usize) -> (r: Result<(Option<Vec<SortItem>>, usize), CypherError>)
    requires
        i <= ts.len(),
    ensures
        found_order(r) == order(lexer::tokens_view(ts@), i as int),
        r matches Ok((_, k)) ==> i <= k <= ts.len(),
{
    if is_kw(ts, i, Kw::Order) && is_kw(ts, i + 1, Kw::By) {
        let (s, k) = parse_sort_items(ts, i + 2)?;
        Ok((Some(s), k))
    } else {
        Ok((None, i))
    }
}

fn parse_behind(ts: &Vec<Token>, i: usize, w: Kw) -> (r: Result<(Option<Expression>, usize), CypherError>)
    requires
        i <= ts.len(),
    ensures
        found_behind(r) == behind(lexer::tokens_view(ts@), i as int, w),
        r matches Ok((_, k)) ==> i <= k <= ts.len(),
{
    if w != Kw::Other && is_kw(ts, i, w) {
        let (e, k) = parse_expression(ts, i + 1)?;
        Ok((Some(e), k))
    } else {
        Ok((None, i))
    }
}

fn parse_return_clause(ts: &Vec<Token>, i: usize) -> (r: Result<(ReturnClause, usize), CypherError>)
    requires
        i <= ts.len(),
    ensures
        found_projection(r) == projection(lexer::tokens_view(ts@), i as int),
        r matches Ok((_, k)) ==> i < k <= ts.len(),
{
    let distinct = is_kw(ts, i, Kw::Distinct);
    let from = if distinct {
        i + 1
    } else {
        i
    };
    let (items, j) = parse_return_items(ts, from)?;
    let (order_by, k) = parse_order_by(ts, j)?;
    let (skip, m) = parse_behind(ts, k, Kw::Skip)?;
    let (limit, q) = parse_behind(ts, m, Kw::Limit)?;
    Ok((ReturnClause { items, distinct, order_by, skip, limit }, q))
}

fn parse_set_item(ts: &Vec<Token>, i: usize) -> (r: Result<(SetItem, usize), CypherError>)
    requires
        i <= ts.len(),
    ensures
        found_set(r) == set_item(lexer::tokens_view(ts@), i as int),
        r matches Ok((_, k)) ==> i < k <= ts.len(),
{
    let variable = match peek_variable(ts, i) {
        None => {
            return Err(fail(ts, i));
        },
        Some(v) => v,
    };
    if is_sign(ts, i + 1, Sign::Dot) {
        let property = match peek_name(ts, i + 2) {
            None => {
                return Err(fail(ts, i + 2));
            },
            Some(p) => p,
        };
        if !is_sign(ts, i + 3, Sign::Eq) {
            return Err(fail(ts, i + 3));
        }
        let (expression, k) = parse_expression(ts, i + 4)?;
        return Ok((SetItem::Property { variable, property, expression }, k));
    }
    if is_sign(ts, i + 1, Sign::PlusEq) {
        let (expression, k) = parse_expression(ts, i + 2)?;
        return Ok((SetItem::MergeProperties { variable, expression }, k));
    }
    if is_sign(ts, i + 1, Sign::Eq) {
        let (expression, k) = parse_expression(ts, i + 2)?;
        return Ok((SetItem::AllProperties { variable, expression }, k));
    }
    let (labels, k) = parse_labels(ts, i + 1);
    if labels.len() > 0 {
        Ok((SetItem::Label { variable, labels }, k))
    } else {
        Err(fail(ts, i + 1))
    }
}

fn parse_set_clause(ts: &Vec<Token>, i: usize) -> (r: Result<(Vec<SetItem>, usize), CypherError>)
    requires
        i <= ts.len(),
    ensures
        found_sets(r) == set_items(lexer::tokens_view(ts@), i as int, seq![]),
        r matches Ok((_, k)) ==> i < k <= ts.len(),
{
    let ghost want = set_items(lexer::tokens_view(ts@), i as int, seq![]);
    let mut out: Vec<SetItem> = Vec::new();
    proof {
        assert(ast::sets_view(out@) =~= Seq::<SetV>::empty());
    }
    let mut k = i;
    loop
        invariant
            i <= k <= ts.len(),
            want == set_items(lexer::tokens_view(ts@), i as int, seq![]),
            want == set_items(lexer::tokens_view(ts@), k as int, ast::sets_view(out@)),
        decreases ts.len() - k,
    {
        let (x, m) = parse_set_item(ts, k)?;
        proof {
            assert(ast::sets_view(out@.push(x)) =~= ast::sets_view(out@).push(x@));
        }
        out.push(x);
        if is_sign(ts, m, Sign::Comma) {
            k = m + 1;
        } else {
            return Ok((out, m));
        }
    }
}

fn parse_remove_item(ts: &Vec<Token>, i: usize) -> (r: Result<(RemoveItem, usize), CypherError>)
    requires
        i <= ts.len(),
    ensures
        found_remove(r) == remove_item(lexer::tokens_view(ts@), i as int),
        r matches Ok((_, k)) ==> i < k <= ts.len(),
{
    let variable = match peek_variable(ts, i) {
        None => {
            return Err(fail(ts, i));
        },
        Some(v) => v,
    };
    if is_sign(ts, i + 1, Sign::Dot) {
        return match peek_name(ts, i + 2) {
            Some(property) => Ok((RemoveItem::Property { variable, property }, i + 3)),
            None => Err(fail(ts, i + 2)),
        };
    }
    let (labels, k) = parse_labels(ts, i + 1);
    if labels.len() > 0 {
        Ok((RemoveItem::Label { variable, labels }, k))
    } else {
        Err(fail(ts, i + 1))
    }
}

fn parse_remove_clause(ts: &Vec<Token>, i: usize) -> (r: Result<(Vec<RemoveItem>, usize), CypherError>)
    requires
        i <= ts.len(),
    ensures
        found_removes(r) == remove_items(lexer::tokens_view(ts@), i as int, seq![]),
        r matches Ok((_, k)) ==> i < k <= ts.len(),
{
    let ghost want = remove_items(lexer::tokens_view(ts@), i as int, seq![]);
    let mut out: Vec<RemoveItem> = Vec::new();
    proof {
        assert(ast::removes_view(out@) =~= Seq::<RemoveV>::empty());
    }
    let mut k = i;
    loop
        invariant
            i <= k <= ts.len(),
            want == remove_items(lexer::tokens_view(ts@), i as int, seq![]),
            want == remove_items(lexer::tokens_view(ts@), k as int, ast::removes_view(out@)),
        decreases ts.len() - k,
    {
        let (x, m) = parse_remove_item(ts, k)?;
        proof {
            assert(ast::removes_view(out@.push(x)) =~= ast::removes_view(out@).push(x@));
        }
        out.push(x);
        if is_sign(ts, m, Sign::Comma) {
            k = m + 1;
        } else {
            return Ok((out, m));
        }
    }
}

fn is_action(ts: &Vec<Token>, i: usize) -> (r: bool)
    requires
        i <= ts.len(),
    ensures
        r == (grammar::kw(lexer::tokens_view(ts@), i as int) == Kw::On && (grammar::kw(
            lexer::tokens_view(ts@),
            i + 1,
        ) == Kw::Create || grammar::kw(lexer::tokens_view(ts@), i + 1) == Kw::Match)
            && grammar::kw(lexer::tokens_view(ts@), i + 2) == Kw::SetTo),
        r ==> i + 2 < ts.len(),
{
    is_kw(ts, i, Kw::On) && (is_kw(ts, i + 1, Kw::Create) || is_kw(ts, i + 1, Kw::Match)) && is_kw(
        ts,
        i + 2,
        Kw::SetTo,
    )
}

fn parse_merge_actions(ts: &Vec<Token>, i: usize) -> (r: Result<((Option<Vec<SetItem>>, Option<Vec<SetItem>>), usize), CypherError>)
    requires
        i <= ts.len(),
    ensures
        found_actions(r) == actions(lexer::tokens_view(ts@), i as int, (None, None)),
        r matches Ok((_, k)) ==> i <= k <= ts.len(),
{
    let ghost want = actions(lexer::tokens_view(ts@), i as int, (None, None));
    let mut on_create: Option<Vec<SetItem>> = None;
    let mut on_match: Option<Vec<SetItem>> = None;
    let mut k = i;
    while is_action(ts, k)
        invariant
            i <= k <= ts.len(),
            want == actions(lexer::tokens_view(ts@), i as int, (None, None)),
            want == actions(
                lexer::tokens_view(ts@),
                k as int,
                (ast::opt_sets(on_create), ast::opt_sets(on_match)),
            ),
        decreases ts.len() - k,
    {
        let (s, m) = parse_set_clause(ts, k + 3)?;
        if is_kw(ts, k + 1, Kw::Create) {
            on_create = Some(s);
        } else {
            on_match = Some(s);
        }
        k = m;
    }
    Ok(((on_create, on_match), k))
}

fn make_merge(
    element: PatternElement,
    on_create: Option<Vec<SetItem>>,
    on_match: Option<Vec<SetItem>>,
) -> (r: Clause)
    ensures
        r@ == merge_clause(element@, (ast::opt_sets(on_create), ast::opt_sets(on_match))),
{
    let part = PatternPart { variable: first_variable(&element), element };
    let mut all: Vec<PatternPart> = Vec::new();
    let ghost p = part@;
    all.push(part);
    proof {
        reveal(merge_clause);
        assert(ast::parts_view(all@) =~= seq![p]);
    }
    Clause::Merge(MergeClause { pattern: Pattern { parts: all }, on_create, on_match })
}

fn parse_merge_clause(ts: &Vec<Token>, i: usize) -> (r: Result<(Clause, usize), CypherError>)
    requires
        i <= ts.len(),
    ensures
        found_clause(r) == merge(lexer::tokens_view(ts@), i as int),
        r matches Ok((_, k)) ==> i < k <= ts.len(),
{
    let (element, k) = parse_pattern_element(ts, i)?;
    let ((on_create, on_match), m) = parse_merge_actions(ts, k)?;
    Ok((make_merge(element, on_create, on_match), m))
}

fn parse_unwind_clause(ts: &Vec<Token>, i: usize) -> (r: Result<(Clause, usize), CypherError>)
    requires
        i <= ts.len(),
    ensures
        found_clause(r) == unwind(lexer::tokens_view(ts@), i as int),
        r matches Ok((_, k)) ==> i < k <= ts.len(),
{
    let (expression, k) = parse_expression(ts, i)?;
    if !is_kw(ts, k, Kw::As) {
        return Err(fail(ts, k));
    }
    match peek_variable(ts, k + 1) {
        Some(alias) => Ok((Clause::Unwind(UnwindClause { expression, alias }), k + 2)),
        None => Err(fail(ts, k + 1)),
    }
}

fn parse_load_clause(ts: &Vec<Token>, i: usize) -> (r: Result<(Clause, usize), CypherError>)
    requires
        i <= ts.len(),
    ensures
        found_clause(r) == load(lexer::tokens_view(ts@), i as int),
        r matches Ok((_, k)) ==> i < k <= ts.len(),
{
    let with_headers = is_kw(ts, i, Kw::With) && is_kw(ts, i + 1, Kw::Headers);
    let j = if with_headers {
        i + 2
    } else {
        i
    };
    if !is_kw(ts, j, Kw::From) {
        return Err(fail(ts, j));
    }
    let (url, k) = parse_expression(ts, j + 1)?;
    if !is_kw(ts, k, Kw::As) {
        return Err(fail(ts, k));
    }
    match peek_variable(ts, k + 1) {
        None => Err(fail(ts, k + 1)),
        Some(alias) => {
            let (field_terminator, m) = parse_behind(ts, k + 2, Kw::Fieldterminator)?;
            Ok(
                (
                    Clause::LoadCsv(LoadCsvClause { url, alias, with_headers, field_terminator }),
                    m,
                ),
            )
        },
    }
}

fn parse_match_clause(ts: &Vec<Token>, i: usize, kind: MatchKind) -> (r: Result<(Clause, usize), CypherError>)
    requires
        i <= ts.len(),
    ensures
        found_clause(r) == match_parts(lexer::tokens_view(ts@), i as int, kind),
        r matches Ok((_, k)) ==> i < k <= ts.len(),
{
    let (ps, k) = parse_pattern_list(ts, i)?;
    Ok((Clause::Match(MatchClause { pattern: Pattern { parts: ps }, kind }), k))
}

fn parse_delete_clause(ts: &Vec<Token>, i: usize, detach: bool) -> (r: Result<(Clause, usize), CypherError>)
    requires
        i <= ts.len(),
    ensures
        found_clause(r) == delete(lexer::tokens_view(ts@), i as int, detach),
        r matches Ok((_, k)) ==> i < k <= ts.len(),
{
    let (expressions, k) = parse_expressions(ts, i)?;
    Ok((Clause::Delete(DeleteClause { detach, expressions }), k))
}

fn parse_with_clause(ts: &Vec<Token>, i: usize) -> (r: Result<(Clause, usize), CypherError>)
    requires
        i <= ts.len(),
    ensures
        found_clause(r) == with_clause(lexer::tokens_view(ts@), i as int),
        r matches Ok((_, k)) ==> i < k <= ts.len(),
{
    let (p, k) = parse_return_clause(ts, i)?;
    let (where_clause, m) = parse_behind(ts, k, Kw::Where)?;
    Ok(
        (
            Clause::With(
                WithClause {
                    items: p.items,
                    distinct: p.distinct,
                    order_by: p.order_by,
                    skip: p.skip,
                    limit: p.limit,
                    where_clause,
                },
            ),
            m,
        ),
    )
}

fn parse_clause(ts: &Vec<Token>, i: usize) -> (r: Result<(Clause, usize), CypherError>)
    requires
        i <= ts.len(),
    ensures
        found_clause(r) == clause(lexer::tokens_view(ts@), i as int),
        r matches Ok((_, k)) ==> i < k <= ts.len(),
{
    let w = peek_kw(ts, i);
    if w == Kw::Create {
        let (ps, k) = parse_pattern_list(ts, i + 1)?;
        return Ok((Clause::Create(CreateClause { pattern: Pattern { parts: ps } }), k));
    }
    if w == Kw::Match {
        return parse_match_clause(ts, i + 1, MatchKind::Regular);
    }
    if w == Kw::Optional && is_kw(ts, i + 1, Kw::Match) {
        return parse_match_clause(ts, i + 2, MatchKind::Optional);
    }
    if w == Kw::Mandatory && is_kw(ts, i + 1, Kw::Match) {
        return parse_match_clause(ts, i + 2, MatchKind::Mandatory);
    }
    if w == Kw::Return {
        let (c, k) = parse_return_clause(ts, i + 1)?;
        return Ok((Clause::Return(c), k));
    }
    if w == Kw::Where {
        let (expression, k) = parse_expression(ts, i + 1)?;
        return Ok((Clause::Where(WhereClause { expression }), k));
    }
    if w == Kw::With {
        return parse_with_clause(ts, i + 1);
    }
    if w == Kw::Unwind {
        return parse_unwind_clause(ts, i + 1);
    }
    if w == Kw::Load && is_kw(ts, i + 1, Kw::Csv) {
        return parse_load_clause(ts, i + 2);
    }
    if w == Kw::SetTo {
        let (items, k) = parse_set_clause(ts, i + 1)?;
        return Ok((Clause::SetItems(SetClause { items }), k));
    }
    if w == Kw::Remove {
        let (items, k) = parse_remove_clause(ts, i + 1)?;
        return Ok((Clause::Remove(RemoveClause { items }), k));
    }
    if w == Kw::Delete {
        return parse_delete_clause(ts, i + 1, false);
    }
    if w == Kw::Detach && is_kw(ts, i + 1, Kw::Delete) {
        return parse_delete_clause(ts, i + 2, true);
    }
    if w == Kw::Merge {
        return parse_merge_clause(ts, i + 1);
    }
    Err(fail(ts, i))
}

fn is_clause_beginning(w: Kw) -> (r: bool)
    ensures
        r == begins_clause(w),
{
    match w {
        Kw::Create => true,
        Kw::Match => true,
        Kw::Optional => true,
        Kw::Mandatory => true,
        Kw::Return => true,
        Kw::Where => true,
        Kw::With => true,
        Kw::Unwind => true,
        Kw::Load => true,
        Kw::SetTo => true,
        Kw::Remove => true,
        Kw::Delete => true,
        Kw::Detach => true,
        Kw::Merge => true,
        _ => false,
    }
}

fn parse_query(ts: &Vec<Token>, i: usize) -> (r: Result<(Vec<Clause>, usize), CypherError>)
    requires
        i <= ts.len(),
    ensures
        found_clauses(r) == clauses(lexer::tokens_view(ts@), i as int, seq![]),
        r matches Ok((_, k)) ==> i < k <= ts.len(),
{
    let ghost want = clauses(lexer::tokens_view(ts@), i as int, seq![]);
    let mut out: Vec<Clause> = Vec::new();
    proof {
        assert(ast::clauses_view(out@) =~= Seq::<ClauseV>::empty());
    }
    let mut k = i;
    while is_clause_beginning(peek_kw(ts, k))
        invariant
            i <= k <= ts.len(),
            out.len() > 0 ==> i < k,
            want == clauses(lexer::tokens_view(ts@), i as int, seq![]),
            want == clauses(lexer::tokens_view(ts@), k as int, ast::clauses_view(out@)),
        decreases ts.len() - k,
    {
        let (c, m) = parse_clause(ts, k)?;
        proof {
            assert(ast::clauses_view(out@.push(c)) =~= ast::clauses_view(out@).push(c@));
        }
        out.push(c);
        k = m;
    }
    if out.len() == 0 {
        return Err(fail(ts, k));
    }
    Ok((out, k))
}

/// Joins a statement to a query by UNION.
fn join_query(left: Statement, clauses: Vec<Clause>, all: bool) -> (r: Statement)
    ensures
        r@ == joined(left@, ast::clauses_view(clauses@), all),
{
    let ghost cs = ast::clauses_view(clauses@);
    let right = Statement::Query(Query { clauses });
    proof {
        reveal(joined);
        assert(right@ == StmtV::Query(cs));
    }
    Statement::Union { left: Box::new(left), right: Box::new(right), all }
}

fn parse_union_rest(ts: &Vec<Token>, i: usize, first: Statement) -> (r: Result<
    (Statement, usize),
    CypherError,
>)
    requires
        i <= ts.len(),
    ensures
        found_statement(r) == union_rest(lexer::tokens_view(ts@), i as int, first@),
        r matches Ok((_, k)) ==> i <= k <= ts.len(),
{
    let ghost want = union_rest(lexer::tokens_view(ts@), i as int, first@);
    let mut left = first;
    let mut k = i;
    while is_kw(ts, k, Kw::Union)
        invariant
            i <= k <= ts.len(),
            want == union_rest(lexer::tokens_view(ts@), i as int, first@),
            want == union_rest(lexer::tokens_view(ts@), k as int, left@),
        decreases ts.len() - k,
    {
        let all = is_kw(ts, k + 1, Kw::All);
        let j = if all {
            k + 2
        } else {
            k + 1
        };
        let (clauses, m) = parse_query(ts, j)?;
        left = join_query(left, clauses, all);
        k = m;
    }
    Ok((left, k))
}

fn parse_key_props(ts: &Vec<Token>, i: usize) -> (r: Result<(Vec<String>, usize), CypherError>)
    requires
        i <= ts.len(),
    ensures
        found_names(r) == key_props(lexer::tokens_view(ts@), i as int, seq![]),
        r matches Ok((_, k)) ==> i < k <= ts.len(),
{
    let ghost want = key_props(lexer::tokens_view(ts@), i as int, seq![]);
    let mut out: Vec<String> = Vec::new();
    proof {
        assert(text::texts_view(out@) =~= Seq::<Seq<char>>::empty());
    }
    let mut k = i;
    loop
        invariant
            i <= k <= ts.len(),
            want == key_props(lexer::tokens_view(ts@), i as int, seq![]),
            want == key_props(lexer::tokens_view(ts@), k as int, text::texts_view(out@)),
        decreases ts.len() - k,
    {
        if peek_variable(ts, k).is_none() {
            return Err(fail(ts, k));
        }
        if !is_sign(ts, k + 1, Sign::Dot) {
            return Err(fail(ts, k + 1));
        }
        match peek_name(ts, k + 2) {
            None => {
                return Err(fail(ts, k + 2));
            },
            Some(p) => {
                proof {
                    assert(text::texts_view(out@.push(p)) =~= text::texts_view(out@).push(p@));
                }
                out.push(p);
                if is_sign(ts, k + 3, Sign::Comma) {
                    k = k + 4;
                } else if is_sign(ts, k + 3, Sign::RParen) {
                    return Ok((out, k + 4));
                } else {
                    return Err(fail(ts, k + 3));
                }
            },
        }
    }
}

fn parse_subject(ts: &Vec<Token>, i: usize) -> (r: Result<(Vec<String>, usize), CypherError>)
    requires
        i <= ts.len(),
    ensures
        found_names(r) == subject(lexer::tokens_view(ts@), i as int),
        r matches Ok((_, k)) ==> i < k <= ts.len(),
{
    if is_sign(ts, i, Sign::LParen) {
        return parse_key_props(ts, i + 1);
    }
    if peek_variable(ts, i).is_none() {
        return Err(fail(ts, i));
    }
    if !is_sign(ts, i + 1, Sign::Dot) {
        return Err(fail(ts, i + 1));
    }
    match peek_name(ts, i + 2) {
        None => Err(fail(ts, i + 2)),
        Some(p) => {
            let mut out: Vec<String> = Vec::new();
            let ghost one = p@;
            out.push(p);
            proof {
                assert(text::texts_view(out@) =~= seq![one]);
            }
            Ok((out, i + 3))
        },
    }
}

fn find_type_kind(w: Kw) -> (r: Option<PropertyTypeKind>)
    ensures
        r == type_kind(w),
{
    match w {
        Kw::Boolean => Some(PropertyTypeKind::Boolean),
        Kw::Text => Some(PropertyTypeKind::String),
        Kw::Integer => Some(PropertyTypeKind::Integer),
        Kw::Float => Some(PropertyTypeKind::Float),
        _ => None,
    }
}

fn parse_demand(ts: &Vec<Token>, i: usize) -> (r: Result<(ConstraintType, usize), CypherError>)
    requires
        i <= ts.len(),
    ensures
        found_demand(r) == demand(lexer::tokens_view(ts@), i as int),
        r matches Ok((_, k)) ==> i < k <= ts.len(),
{
    if !is_kw(ts, i, Kw::Is) {
        return Err(fail(ts, i));
    }
    if is_kw(ts, i + 1, Kw::Unique) {
        return Ok((ConstraintType::Unique, i + 2));
    }
    if is_kw(ts, i + 1, Kw::Not) && is_kw(ts, i + 2, Kw::Null) {
        return Ok((ConstraintType::NotNull, i + 3));
    }
    if is_kw(ts, i + 1, Kw::Node) && is_kw(ts, i + 2, Kw::Key) {
        return Ok((ConstraintType::NodeKey, i + 3));
    }
    if is_kw(ts, i + 1, Kw::Typed) {
        if let Some(t) = find_type_kind(peek_kw(ts, i + 2)) {
            return Ok((ConstraintType::PropertyType(t), i + 3));
        }
    }
    if is_sign(ts, i + 1, Sign::Colon) && is_sign(ts, i + 2, Sign::Colon) {
        if let Some(t) = find_type_kind(peek_kw(ts, i + 3)) {
            return Ok((ConstraintType::PropertyType(t), i + 4));
        }
    }
    Err(fail(ts, i + 1))
}

fn parse_create_constraint_stmt(ts: &Vec<Token>, i: usize) -> (r: Result<(Statement, usize), CypherError>)
    requires
        i <= ts.len(),
    ensures
        found_statement(r) == constraint(lexer::tokens_view(ts@), i as int),
        r matches Ok((_, k)) ==> i < k <= ts.len(),
{
    if !is_kw(ts, i, Kw::For) {
        return Err(fail(ts, i));
    }
    if !is_sign(ts, i + 1, Sign::LParen) {
        return Err(fail(ts, i + 1));
    }
    let variable = match peek_variable(ts, i + 2) {
        Some(v) => v,
        None => {
            return Err(fail(ts, i + 2));
        },
    };
    if !is_sign(ts, i + 3, Sign::Colon) {
        return Err(fail(ts, i + 3));
    }
    let label = match peek_name(ts, i + 4) {
        Some(l) => l,
        None => {
            return Err(fail(ts, i + 4));
        },
    };
    if !is_sign(ts, i + 5, Sign::RParen) {
        return Err(fail(ts, i + 5));
    }
    if !is_kw(ts, i + 6, Kw::Require) {
        return Err(fail(ts, i + 6));
    }
    let (properties, k) = parse_subject(ts, i + 7)?;
    let (constraint_type, m) = parse_demand(ts, k)?;
    Ok(
        (
            Statement::CreateConstraint(
                CreateConstraintStatement { variable, label, properties, constraint_type },
            ),
            m,
        ),
    )
}

fn parse_body(ts: &Vec<Token>) -> (r: Result<(Statement, usize), CypherError>)
    ensures
        found_statement(r) == body(lexer::tokens_view(ts@)),
        r matches Ok((_, k)) ==> k <= ts.len(),
{
    if is_kw(ts, 0, Kw::Create) && is_kw(ts, 1, Kw::Constraint) {
        if !is_kw(ts, 2, Kw::For) && peek_name(ts, 2).is_some() {
            return parse_create_constraint_stmt(ts, 3);
        }
        return parse_create_constraint_stmt(ts, 2);
    }
    let (clauses, k) = parse_query(ts, 0)?;
    parse_union_rest(ts, k, Statement::Query(Query { clauses }))
}

/// The view of a statement or an error.
pub open spec fn statement_outcome(r: Result<Statement, CypherError>) -> Result<StmtV, ErrV> {
    match r {
        Ok(s) => Ok(s@),
        Err(e) => Err(e@),
    }
}

/// The parser of queries.
pub struct CypherParser;

impl CypherParser {
    /// Parses the text of a query into a statement.
    pub fn parse(input: &str) -> (r: Result<Statement, CypherError>)
        ensures
            statement_outcome(r) == statement_of(input@),
    {
        let ts = tokenize(input)?;
        if ts.len() == 0 {
            return Err(CypherError::ParseError("Empty statement".to_owned()));
        }
        let (s, k) = parse_body(&ts)?;
        let end = if is_sign(&ts, k, Sign::Semi) {
            k + 1
        } else {
            k
        };
        if end == ts.len() {
            Ok(s)
        } else {
            Err(fail(&ts, end))
        }
    }
}

/// Parses the text of a query into a statement.
pub fn parse(input: &str) -> (r: Result<Statement, CypherError>)
    ensures
        statement_outcome(r) == statement_of(input@),
{
    CypherParser::parse(input)
}

/// Parses the text of a query into a statement.
pub fn parse_with_return_extraction(input: &str) -> (r: Result<Statement, CypherError>)
    ensures
        statement_outcome(r) == statement_of(input@),
{
    parse(input)
}

} // verus!
