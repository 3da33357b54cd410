//! From statements to plans.
use crate::ast::{
    self, ChainV, Clause, ClauseV, CompOp, Expression, ExprV, ItemV, KeyV, LitV, Literal, MapKey,
    MapLiteral, MatchKind, NodePatV, NodePattern, PartV, PatternChainElement, PatternElement,
    PatternPart, PatternV, ProjV, RangeSpec, RelationshipPattern, RelPatV, ReturnClause,
    ReturnItem, SortItem, SortV, Statement, StmtV, WithClause,
};
use crate::error::{CypherError, ErrV};
use crate::plan::{self, HopV, LogicalPlan, PlanV};
use crate::text::{self, clone_texts, join2, same_text, u64_text};
use vstd::prelude::*;

verus! {

/// The view of a plan or an error.
pub open spec fn plan_outcome(r: Result<LogicalPlan, CypherError>) -> Result<PlanV, ErrV> {
    match r {
        Ok(p) => Ok(p@),
        Err(e) => Err(e@),
    }
}

// ---------------------------------------------------------------------------
// Filters
// ---------------------------------------------------------------------------

/// The predicate that a node has a label.
pub open spec fn label_test(variable: Seq<char>, label: Seq<char>) -> ExprV {
    ExprV::FunctionCall {
        name: "__has_label"@,
        distinct: false,
        args: seq![ExprV::Variable(variable), ExprV::Literal(LitV::Str(label))],
    }
}

/// A plan followed by a filter for each label from the `i`-th on.
pub open spec fn with_labels(
    p: PlanV,
    variable: Seq<char>,
    labels: Seq<Seq<char>>,
    i: int,
) -> PlanV
    decreases labels.len() - i,
{
    if i < 0 || i >= labels.len() {
        p
    } else {
        with_labels(
            PlanV::Filter { input: Box::new(p), predicate: label_test(variable, labels[i]) },
            variable,
            labels,
            i + 1,
        )
    }
}

/// The predicate that a property has a value.
pub open spec fn property_test(variable: Seq<char>, key: Seq<char>, e: ExprV) -> ExprV {
    ExprV::Comparison {
        left: Box::new(ExprV::Property(Box::new(ExprV::Variable(variable)), key)),
        op: CompOp::Eq,
        right: Box::new(e),
    }
}

/// A plan followed by a filter for each entry with a fixed key from the `i`-th
/// on.
pub open spec fn with_entries(
    p: PlanV,
    variable: Seq<char>,
    entries: Seq<(KeyV, ExprV)>,
    i: int,
) -> PlanV
    decreases entries.len() - i,
{
    if i < 0 || i >= entries.len() {
        p
    } else {
        match entries[i].0 {
            KeyV::Identifier(k) => with_entries(
                PlanV::Filter {
                    input: Box::new(p),
                    predicate: property_test(variable, k, entries[i].1),
                },
                variable,
                entries,
                i + 1,
            ),
            KeyV::Expression(_) => with_entries(p, variable, entries, i + 1),
        }
    }
}

/// A plan followed by the filters for the properties of a pattern.
pub open spec fn with_props(
    p: PlanV,
    variable: Seq<char>,
    props: Option<Seq<(KeyV, ExprV)>>,
) -> PlanV {
    match props {
        Some(entries) => with_entries(p, variable, entries, 0),
        None => p,
    }
}

fn filter_label(input: LogicalPlan, variable: &str, label: &str) -> (r: LogicalPlan)
    ensures
        r@ == (PlanV::Filter {
            input: Box::new(input@),
            predicate: label_test(variable@, label@),
        }),
{
    let subject = Expression::Variable(variable.to_owned());
    let name = Expression::Literal(Literal::String(label.to_owned()));
    let mut args: Vec<Expression> = Vec::new();
    args.push(subject);
    args.push(name);
    proof {
        assert(subject@ == subject.parts());
        assert(name@ == name.parts());
        assert(ast::exprs_view(args@) =~= seq![
            ExprV::Variable(variable@),
            ExprV::Literal(LitV::Str(label@)),
        ]);
    }
    let predicate = Expression::FunctionCall {
        name: "__has_label".to_owned(),
        distinct: false,
        args,
    };
    proof {
        assert(predicate@ == predicate.parts());
    }
    let r = LogicalPlan::Filter { input: Box::new(input), predicate };
    proof {
        assert(r@ == r.parts());
    }
    r
}

fn add_label_filters(input: LogicalPlan, variable: &str, labels: &Vec<String>, from: usize) -> (r:
    LogicalPlan)
    ensures
        r@ == with_labels(input@, variable@, text::texts_view(labels@), from as int),
{
    let ghost first = input@;
    let mut current = input;
    let mut i: usize = from;
    while i < labels.len()
        invariant
            with_labels(first, variable@, text::texts_view(labels@), from as int) == with_labels(
                current@,
                variable@,
                text::texts_view(labels@),
                i as int,
            ),
        decreases labels.len() - i,
    {
        current = filter_label(current, variable, labels[i].as_str());
        i += 1;
    }
    current
}

fn filter_property(input: LogicalPlan, variable: &str, key: &str, value: Expression) -> (r:
    LogicalPlan)
    ensures
        r@ == (PlanV::Filter {
            input: Box::new(input@),
            predicate: property_test(variable@, key@, value@),
        }),
{
    let subject = Expression::Variable(variable.to_owned());
    proof {
        assert(subject@ == subject.parts());
    }
    let left = Expression::Property(Box::new(subject), key.to_owned());
    proof {
        assert(left@ == left.parts());
    }
    let predicate = Expression::Comparison {
        left: Box::new(left),
        op: CompOp::Eq,
        right: Box::new(value),
    };
    proof {
        assert(predicate@ == predicate.parts());
    }
    let r = LogicalPlan::Filter { input: Box::new(input), predicate };
    proof {
        assert(r@ == r.parts());
    }
    r
}

/// Filters for the properties that a pattern asks for.
fn add_property_filters(input: LogicalPlan, variable: &str, properties: &Option<MapLiteral>) -> (r:
    LogicalPlan)
    ensures
        r@ == with_props(input@, variable@, ast::opt_map(*properties)),
{
    match properties {
        None => input,
        Some(m) => {
            let ghost first = input@;
            let mut current = input;
            let mut i: usize = 0;
            while i < m.entries.len()
                invariant
                    i <= m.entries.len(),
                    with_entries(first, variable@, m@, 0) == with_entries(
                        current@,
                        variable@,
                        m@,
                        i as int,
                    ),
                decreases m.entries.len() - i,
            {
                if let MapKey::Identifier(k) = &m.entries[i].0 {
                    current = filter_property(
                        current,
                        variable,
                        k.as_str(),
                        m.entries[i].1.clone(),
                    );
                }
                i += 1;
            }
            current
        },
    }
}

// ---------------------------------------------------------------------------
// Patterns
// ---------------------------------------------------------------------------

/// A name that a pattern gives, or another.
pub open spec fn name_or(variable: Option<Seq<char>>, other: Seq<char>) -> Seq<char> {
    match variable {
        Some(v) => v,
        None => other,
    }
}

fn given_or(variable: &Option<String>, other: &str) -> (r: String)
    ensures
        r@ == name_or(ast::opt_text(*variable), other@),
{
    match variable {
        Some(v) => v.clone(),
        None => other.to_owned(),
    }
}

/// The entries with fixed keys from the `i`-th on, behind those that are there
/// already.
pub open spec fn fixed_entries(
    entries: Seq<(KeyV, ExprV)>,
    i: int,
    acc: Seq<(Seq<char>, ExprV)>,
) -> Seq<(Seq<char>, ExprV)>
    decreases entries.len() - i,
{
    if i < 0 || i >= entries.len() {
        acc
    } else {
        match entries[i].0 {
            KeyV::Identifier(k) => fixed_entries(entries, i + 1, acc.push((k, entries[i].1))),
            KeyV::Expression(_) => fixed_entries(entries, i + 1, acc),
        }
    }
}

pub open spec fn fixed_props(props: Option<Seq<(KeyV, ExprV)>>) -> Seq<(Seq<char>, ExprV)> {
    match props {
        Some(entries) => fixed_entries(entries, 0, seq![]),
        None => seq![],
    }
}

fn collect_fixed(properties: &Option<MapLiteral>) -> (r: Vec<(String, Expression)>)
    ensures
        plan::inline_view(r@) == fixed_props(ast::opt_map(*properties)),
{
    let mut r: Vec<(String, Expression)> = Vec::new();
    proof {
        assert(plan::inline_view(r@) =~= seq![]);
    }
    if let Some(m) = properties {
        let mut i: usize = 0;
        while i < m.entries.len()
            invariant
                i <= m.entries.len(),
                fixed_entries(m@, 0, seq![]) == fixed_entries(
                    m@,
                    i as int,
                    plan::inline_view(r@),
                ),
            decreases m.entries.len() - i,
        {
            if let MapKey::Identifier(k) = &m.entries[i].0 {
                let e = m.entries[i].1.clone();
                let key = k.clone();
                proof {
                    assert(plan::inline_view(r@.push((key, e))) =~= plan::inline_view(r@).push(
                        (key@, e@),
                    ));
                }
                r.push((key, e));
            }
            i += 1;
        }
    }
    r
}

/// The nodes that fit a pattern.
pub open spec fn node_scan(np: NodePatV, variable: Seq<char>) -> PlanV {
    with_props(
        with_labels(
            PlanV::ScanNodes {
                label_filter: if np.labels.len() > 0 {
                    Some(np.labels[0])
                } else {
                    None
                },
                inline_props: fixed_props(np.properties),
                variable,
            },
            variable,
            np.labels,
            1,
        ),
        variable,
        np.properties,
    )
}

fn plan_node_scan(np: &NodePattern, variable: &str) -> (r: LogicalPlan)
    ensures
        r@ == node_scan(np@, variable@),
{
    let label_filter = if np.labels.len() > 0 {
        Some(np.labels[0].clone())
    } else {
        None
    };
    let scan = LogicalPlan::ScanNodes {
        label_filter,
        inline_props: collect_fixed(&np.properties),
        variable: variable.to_owned(),
    };
    proof {
        assert(scan@ == scan.parts());
    }
    let labelled = add_label_filters(scan, variable, &np.labels, 1);
    add_property_filters(labelled, variable, &np.properties)
}

/// How many hops a relationship may stand for.
pub open spec fn min_hops(range: RangeSpec) -> u64 {
    match range.min {
        Some(m) => m,
        None => 1,
    }
}

fn least_hops(range: RangeSpec) -> (r: u64)
    ensures
        r == min_hops(range),
{
    match range.min {
        Some(m) => m,
        None => 1,
    }
}

/// The variable for a relationship: the given one, or one of its own where
/// properties have to be tested.
pub open spec fn rel_name(rel: RelPatV, i: int) -> Option<Seq<char>> {
    match rel.variable {
        Some(v) => Some(v),
        None => if rel.range is None && rel.properties is Some {
            Some("_anon_rel_"@ + text::nat_text(i as nat))
        } else {
            None
        },
    }
}

/// The variable for the node at the end of the `i`-th step.
pub open spec fn dst_name(np: NodePatV, i: int) -> Seq<char> {
    name_or(np.variable, "_anon_dst_"@ + text::nat_text(i as nat))
}

/// A plan followed by the `i`-th step of a chain.
pub open spec fn with_step(p: PlanV, src: Seq<char>, step: ChainV, i: int) -> PlanV {
    let hop = HopV {
        src,
        rel: rel_name(step.relationship, i),
        dst: dst_name(step.node, i),
        types: step.relationship.rel_types,
        direction: step.relationship.direction,
    };
    let moved = match step.relationship.range {
        Some(r) => PlanV::VarLengthExpand {
            input: Box::new(p),
            hop,
            min_hops: min_hops(r),
            max_hops: r.max,
        },
        None => PlanV::Expand { input: Box::new(p), hop },
    };
    let tested = match (step.relationship.range, hop.rel) {
        (None, Some(rv)) => with_props(moved, rv, step.relationship.properties),
        _ => moved,
    };
    with_props(
        with_labels(tested, hop.dst, step.node.labels, 0),
        hop.dst,
        step.node.properties,
    )
}

/// A plan followed by the steps of a chain from the `i`-th on.
pub open spec fn with_chain(p: PlanV, src: Seq<char>, chain: Seq<ChainV>, i: int) -> PlanV
    decreases chain.len() - i,
{
    if i < 0 || i >= chain.len() {
        p
    } else {
        with_chain(with_step(p, src, chain[i], i), dst_name(chain[i].node, i), chain, i + 1)
    }
}

fn plan_step(input: LogicalPlan, src: &str, step: &PatternChainElement, i: usize) -> (r: (
    LogicalPlan,
    String,
))
    ensures
        r.0@ == with_step(input@, src@, step@, i as int),
        r.1@ == dst_name(step@.node, i as int),
{
    let index = u64_text(i as u64);
    let dst = given_or(&step.node.variable, join2("_anon_dst_", index.as_str()).as_str());
    let rel = match &step.relationship.variable {
        Some(v) => Some(v.clone()),
        None => if step.relationship.range.is_none() && step.relationship.properties.is_some() {
            Some(join2("_anon_rel_", index.as_str()))
        } else {
            None
        },
    };
    let name = ast::clone_opt_text(&rel);
    let moved = match step.relationship.range {
        Some(r) => {
            let p = LogicalPlan::VarLengthExpand {
                input: Box::new(input),
                src_variable: src.to_owned(),
                rel_variable: rel,
                dst_variable: dst.clone(),
                rel_types: clone_texts(&step.relationship.rel_types),
                direction: step.relationship.direction,
                min_hops: least_hops(r),
                max_hops: r.max,
            };
            proof {
                assert(p@ == p.parts());
            }
            p
        },
        None => {
            let p = LogicalPlan::Expand {
                input: Box::new(input),
                src_variable: src.to_owned(),
                rel_variable: rel,
                dst_variable: dst.clone(),
                rel_types: clone_texts(&step.relationship.rel_types),
                direction: step.relationship.direction,
            };
            proof {
                assert(p@ == p.parts());
            }
            p
        },
    };
    let tested = match (step.relationship.range, &name) {
        (None, Some(rv)) => add_property_filters(
            moved,
            rv.as_str(),
            &step.relationship.properties,
        ),
        _ => moved,
    };
    let labelled = add_label_filters(tested, dst.as_str(), &step.node.labels, 0);
    let done = add_property_filters(labelled, dst.as_str(), &step.node.properties);
    (done, dst)
}

fn plan_chain(input: LogicalPlan, src: String, chain: &Vec<PatternChainElement>) -> (r: LogicalPlan)
    ensures
        r@ == with_chain(input@, src@, ast::chain_view(chain@), 0),
{
    let ghost first = input@;
    let ghost start = src@;
    let mut current = input;
    let mut from = src;
    let mut i: usize = 0;
    while i < chain.len()
        invariant
            first == input@,
            start == src@,
            i <= chain.len(),
            with_chain(first, start, ast::chain_view(chain@), 0) == with_chain(
                current@,
                from@,
                ast::chain_view(chain@),
                i as int,
            ),
        decreases chain.len() - i,
    {
        proof {
            assert(ast::chain_view(chain@)[i as int] == chain@[i as int]@);
        }
        let next = plan_step(current, from.as_str(), &chain[i], i);
        current = next.0;
        from = next.1;
        i += 1;
    }
    current
}

/// Each row so far with each row of a scan.
pub open spec fn joined_with(p: PlanV, scan: PlanV) -> PlanV {
    match p {
        PlanV::EmptyRow => scan,
        _ => PlanV::CartesianProduct { left: Box::new(p), right: Box::new(scan) },
    }
}

fn join_scan(input: LogicalPlan, scan: LogicalPlan) -> (r: LogicalPlan)
    ensures
        r@ == joined_with(input@, scan@),
{
    proof {
        assert(input@ == input.parts());
    }
    match input {
        LogicalPlan::EmptyRow => scan,
        other => {
            let r = LogicalPlan::CartesianProduct { left: Box::new(other), right: Box::new(scan) };
            proof {
                assert(r@ == r.parts());
            }
            r
        },
    }
}

/// An end of a shortest path that names labels or properties, or no variable,
/// is searched for; a bare variable is taken from the rows so far, if there
/// are any.
pub open spec fn must_scan(np: NodePatV, p: PlanV) -> bool {
    p is EmptyRow || np.variable is None || np.labels.len() > 0 || np.properties is Some
}

pub open spec fn with_end(p: PlanV, np: NodePatV, variable: Seq<char>, scan: bool) -> PlanV {
    if scan {
        joined_with(p, node_scan(np, variable))
    } else {
        p
    }
}

/// A plan followed by a search for shortest paths.
pub open spec fn with_shortest(
    p: PlanV,
    path: Option<Seq<char>>,
    start: NodePatV,
    rel: RelPatV,
    end: NodePatV,
    all: bool,
) -> PlanV {
    let src = name_or(start.variable, "_anon_start"@);
    let dst = name_or(end.variable, "_anon_end"@);
    PlanV::ShortestPath {
        input: Box::new(
            with_end(with_end(p, start, src, must_scan(start, p)), end, dst, must_scan(end, p)),
        ),
        hop: HopV {
            src,
            rel: rel.variable,
            dst,
            types: rel.rel_types,
            direction: rel.direction,
        },
        path_variable: name_or(path, "_path"@),
        min_hops: match rel.range {
            Some(r) => min_hops(r),
            None => 1,
        },
        max_hops: match rel.range {
            Some(r) => r.max,
            None => Some(1u64),
        },
        all_shortest: all,
    }
}

fn end_must_be_scanned(np: &NodePattern, first: bool) -> (r: bool)
    ensures
        r == (first || np@.variable is None || np@.labels.len() > 0 || np@.properties is Some),
{
    first || np.variable.is_none() || np.labels.len() > 0 || np.properties.is_some()
}

fn plan_shortest(
    input: LogicalPlan,
    path: &Option<String>,
    start: &NodePattern,
    rel: &RelationshipPattern,
    end: &NodePattern,
    all: bool,
) -> (r: LogicalPlan)
    ensures
        r@ == with_shortest(input@, ast::opt_text(*path), start@, rel@, end@, all),
{
    proof {
        assert(input@ == input.parts());
    }
    let first = match &input {
        LogicalPlan::EmptyRow => true,
        _ => false,
    };
    let src = given_or(&start.variable, "_anon_start");
    let dst = given_or(&end.variable, "_anon_end");
    let mut current = input;
    if end_must_be_scanned(start, first) {
        current = join_scan(current, plan_node_scan(start, src.as_str()));
    }
    if end_must_be_scanned(end, first) {
        current = join_scan(current, plan_node_scan(end, dst.as_str()));
    }
    let min = match rel.range {
        Some(r) => least_hops(r),
        None => 1,
    };
    let max = match rel.range {
        Some(r) => r.max,
        None => Some(1),
    };
    let r = LogicalPlan::ShortestPath {
        input: Box::new(current),
        src_variable: src,
        dst_variable: dst,
        rel_variable: ast::clone_opt_text(&rel.variable),
        path_variable: given_or(path, "_path"),
        rel_types: clone_texts(&rel.rel_types),
        direction: rel.direction,
        min_hops: min,
        max_hops: max,
        all_shortest: all,
    };
    proof {
        assert(r@ == r.parts());
    }
    r
}

/// A plan followed by the search for one part of a pattern.
pub open spec fn with_part(p: PlanV, part: PartV) -> PlanV {
    match part.element {
        PatternV::Node(np) => joined_with(
            p,
            node_scan(np, name_or(np.variable, name_or(part.variable, "_anon"@))),
        ),
        PatternV::Chain { start, elements } => {
            let src = name_or(start.variable, name_or(part.variable, "_anon_start"@));
            joined_with(p, with_chain(node_scan(start, src), src, elements, 0))
        },
        PatternV::ShortestPath { start, relationship, end } => with_shortest(
            p,
            part.variable,
            start,
            relationship,
            end,
            false,
        ),
        PatternV::AllShortestPaths { start, relationship, end } => with_shortest(
            p,
            part.variable,
            start,
            relationship,
            end,
            true,
        ),
    }
}

fn plan_match_scan(input: LogicalPlan, part: &PatternPart) -> (r: LogicalPlan)
    ensures
        r@ == with_part(input@, part@),
{
    match &part.element {
        PatternElement::Node(np) => {
            let other = given_or(&part.variable, "_anon");
            let variable = given_or(&np.variable, other.as_str());
            join_scan(input, plan_node_scan(np, variable.as_str()))
        },
        PatternElement::Chain { start, elements } => {
            let other = given_or(&part.variable, "_anon_start");
            let src = given_or(&start.variable, other.as_str());
            let scan = plan_node_scan(start, src.as_str());
            join_scan(input, plan_chain(scan, src, elements))
        },
        PatternElement::ShortestPath { start, relationship, end } => plan_shortest(
            input,
            &part.variable,
            start,
            relationship,
            end,
            false,
        ),
        PatternElement::AllShortestPaths { start, relationship, end } => plan_shortest(
            input,
            &part.variable,
            start,
            relationship,
            end,
            true,
        ),
    }
}

/// A plan followed by the search for the parts of a pattern from the `i`-th
/// on.
pub open spec fn with_parts(p: PlanV, parts: Seq<PartV>, i: int) -> PlanV
    decreases parts.len() - i,
{
    if i < 0 || i >= parts.len() {
        p
    } else {
        with_parts(with_part(p, parts[i]), parts, i + 1)
    }
}

fn plan_parts(input: LogicalPlan, parts: &Vec<PatternPart>) -> (r: LogicalPlan)
    ensures
        r@ == with_parts(input@, ast::parts_view(parts@), 0),
{
    let ghost first = input@;
    let mut current = input;
    let mut i: usize = 0;
    while i < parts.len()
        invariant
            first == input@,
            i <= parts.len(),
            with_parts(first, ast::parts_view(parts@), 0) == with_parts(
                current@,
                ast::parts_view(parts@),
                i as int,
            ),
        decreases parts.len() - i,
    {
        current = plan_match_scan(current, &parts[i]);
        i += 1;
    }
    current
}

// ---------------------------------------------------------------------------
// Clauses
// ---------------------------------------------------------------------------

pub open spec fn match_plan(parts: Seq<PartV>, kind: MatchKind, p: PlanV) -> Result<PlanV, ErrV> {
    if parts.len() == 0 {
        Err(ErrV::Semantic("Empty MATCH pattern"@))
    } else {
        Ok(
            match kind {
                MatchKind::Regular => with_parts(p, parts, 0),
                MatchKind::Optional => PlanV::LeftOuterJoin {
                    left: Box::new(p),
                    right: Box::new(with_parts(PlanV::EmptyRow, parts, 0)),
                },
                MatchKind::Mandatory => PlanV::MandatoryGuard {
                    input: Box::new(with_parts(p, parts, 0)),
                },
            },
        )
    }
}

fn plan_match(parts: &Vec<PatternPart>, kind: MatchKind, input: LogicalPlan) -> (r: Result<
    LogicalPlan,
    CypherError,
>)
    ensures
        plan_outcome(r) == match_plan(ast::parts_view(parts@), kind, input@),
{
    if parts.len() == 0 {
        return Err(CypherError::SemanticError("Empty MATCH pattern".to_owned()));
    }
    match kind {
        MatchKind::Regular => Ok(plan_parts(input, parts)),
        MatchKind::Optional => {
            let none = LogicalPlan::EmptyRow;
            proof {
                assert(none@ == none.parts());
            }
            let r = LogicalPlan::LeftOuterJoin {
                left: Box::new(input),
                right: Box::new(plan_parts(none, parts)),
            };
            proof {
                assert(r@ == r.parts());
            }
            Ok(r)
        },
        MatchKind::Mandatory => {
            let r = LogicalPlan::MandatoryGuard { input: Box::new(plan_parts(input, parts)) };
            proof {
                assert(r@ == r.parts());
            }
            Ok(r)
        },
    }
}

/// A plan followed by the creation of the parts of a pattern from the `i`-th
/// on.
pub open spec fn create_parts(parts: Seq<PartV>, i: int, p: PlanV) -> Result<PlanV, ErrV>
    decreases parts.len() - i,
{
    if i < 0 || i >= parts.len() {
        Ok(p)
    } else {
        match parts[i].element {
            PatternV::Node(np) => create_parts(
                parts,
                i + 1,
                PlanV::CreateNode { input: Box::new(p), pattern: np },
            ),
            PatternV::Chain { start, elements } => create_parts(
                parts,
                i + 1,
                PlanV::CreatePath { input: Box::new(p), start, elements },
            ),
            _ => Err(
                ErrV::Semantic("shortestPath/allShortestPaths cannot be used in CREATE"@),
            ),
        }
    }
}

pub open spec fn create_plan(parts: Seq<PartV>, p: PlanV) -> Result<PlanV, ErrV> {
    if parts.len() == 0 {
        Err(ErrV::Semantic("Empty CREATE pattern"@))
    } else {
        create_parts(parts, 0, p)
    }
}

fn plan_create(parts: &Vec<PatternPart>, input: LogicalPlan) -> (r: Result<LogicalPlan, CypherError>)
    ensures
        plan_outcome(r) == create_plan(ast::parts_view(parts@), input@),
{
    if parts.len() == 0 {
        return Err(CypherError::SemanticError("Empty CREATE pattern".to_owned()));
    }
    let ghost first = input@;
    let mut current = input;
    let mut i: usize = 0;
    while i < parts.len()
        invariant
            first == input@,
            parts.len() > 0,
            i <= parts.len(),
            create_parts(ast::parts_view(parts@), 0, first) == create_parts(
                ast::parts_view(parts@),
                i as int,
                current@,
            ),
        decreases parts.len() - i,
    {
        match &parts[i].element {
            PatternElement::Node(np) => {
                let next = LogicalPlan::CreateNode {
                    input: Box::new(current),
                    pattern: np.clone(),
                };
                proof {
                    assert(next@ == next.parts());
                }
                current = next;
            },
            PatternElement::Chain { start, elements } => {
                let next = LogicalPlan::CreatePath {
                    input: Box::new(current),
                    start: start.clone(),
                    elements: ast::clone_chain(elements),
                };
                proof {
                    assert(next@ == next.parts());
                }
                current = next;
            },
            _ => {
                return Err(
                    CypherError::SemanticError(
                        "shortestPath/allShortestPaths cannot be used in CREATE".to_owned(),
                    ),
                );
            },
        }
        i += 1;
    }
    Ok(current)
}

/// Some item from the `i`-th on has an alias.
pub open spec fn has_alias(items: Seq<ItemV>, name: Seq<char>, i: int) -> bool
    decreases items.len() - i,
{
    if i < 0 || i >= items.len() {
        false
    } else {
        items[i].alias == Some(name) || has_alias(items, name, i + 1)
    }
}

/// Some sort item from the `i`-th on is the alias of an item.
pub open spec fn sorts_by_alias(sorts: Seq<SortV>, items: Seq<ItemV>, i: int) -> bool
    decreases sorts.len() - i,
{
    if i < 0 || i >= sorts.len() {
        false
    } else {
        (match sorts[i].expression {
            ExprV::Variable(x) => has_alias(items, x, 0),
            _ => false,
        }) || sorts_by_alias(sorts, items, i + 1)
    }
}

fn item_has_alias(items: &Vec<ReturnItem>, name: &str) -> (r: bool)
    ensures
        r == has_alias(ast::items_view(items@), name@, 0),
{
    let mut i: usize = 0;
    while i < items.len()
        invariant
            i <= items.len(),
            has_alias(ast::items_view(items@), name@, 0) == has_alias(
                ast::items_view(items@),
                name@,
                i as int,
            ),
        decreases items.len() - i,
    {
        if let Some(a) = &items[i].alias {
            if same_text(a.as_str(), name) {
                return true;
            }
        }
        i += 1;
    }
    false
}

fn order_uses_alias(sorts: &Vec<SortItem>, items: &Vec<ReturnItem>) -> (r: bool)
    ensures
        r == sorts_by_alias(ast::sorts_view(sorts@), ast::items_view(items@), 0),
{
    let mut i: usize = 0;
    while i < sorts.len()
        invariant
            i <= sorts.len(),
            sorts_by_alias(ast::sorts_view(sorts@), ast::items_view(items@), 0) == sorts_by_alias(
                ast::sorts_view(sorts@),
                ast::items_view(items@),
                i as int,
            ),
        decreases sorts.len() - i,
    {
        proof {
            assert(sorts@[i as int].expression@ == sorts@[i as int].expression.parts());
        }
        if let Expression::Variable(x) = &sorts[i].expression {
            if item_has_alias(items, x.as_str()) {
                return true;
            }
        }
        i += 1;
    }
    false
}

pub open spec fn with_sort(p: PlanV, sorts: Option<Seq<SortV>>) -> PlanV {
    match sorts {
        Some(items) => PlanV::Sort { input: Box::new(p), items },
        None => p,
    }
}

pub open spec fn with_skip_limit(p: PlanV, skip: Option<ExprV>, limit: Option<ExprV>) -> PlanV {
    let skipped = match skip {
        Some(count) => PlanV::Skip { input: Box::new(p), count },
        None => p,
    };
    match limit {
        Some(count) => PlanV::Limit { input: Box::new(skipped), count },
        None => skipped,
    }
}

fn add_sort(input: LogicalPlan, sorts: &Option<Vec<SortItem>>) -> (r: LogicalPlan)
    ensures
        r@ == with_sort(input@, ast::opt_sorts(*sorts)),
{
    match sorts {
        Some(items) => {
            let r = LogicalPlan::Sort { input: Box::new(input), items: ast::clone_sorts(items) };
            proof {
                assert(r@ == r.parts());
            }
            r
        },
        None => input,
    }
}

fn add_skip_limit(input: LogicalPlan, skip: &Option<Expression>, limit: &Option<Expression>) -> (r:
    LogicalPlan)
    ensures
        r@ == with_skip_limit(input@, ast::maybe_expr(*skip), ast::maybe_expr(*limit)),
{
    let skipped = match skip {
        Some(e) => {
            let r = LogicalPlan::Skip { input: Box::new(input), count: e.clone() };
            proof {
                assert(r@ == r.parts());
            }
            r
        },
        None => input,
    };
    match limit {
        Some(e) => {
            let r = LogicalPlan::Limit { input: Box::new(skipped), count: e.clone() };
            proof {
                assert(r@ == r.parts());
            }
            r
        },
        None => skipped,
    }
}

/// RETURN sorts after the projection where it sorts by an alias, else before
/// it, so that it can sort by what is not returned.
pub open spec fn return_plan(c: ProjV, p: PlanV) -> PlanV {
    let after = match c.order_by {
        Some(sorts) => sorts_by_alias(sorts, c.items, 0),
        None => false,
    };
    let before_projection = if after {
        p
    } else {
        with_sort(p, c.order_by)
    };
    let projected = PlanV::Return {
        input: Box::new(before_projection),
        items: c.items,
        distinct: c.distinct,
    };
    with_skip_limit(
        if after {
            with_sort(projected, c.order_by)
        } else {
            projected
        },
        c.skip,
        c.limit,
    )
}

fn plan_return(c: &ReturnClause, input: LogicalPlan) -> (r: LogicalPlan)
    ensures
        r@ == return_plan(c@, input@),
{
    let after = match &c.order_by {
        Some(sorts) => order_uses_alias(sorts, &c.items),
        None => false,
    };
    let source = if after {
        input
    } else {
        add_sort(input, &c.order_by)
    };
    let projected = LogicalPlan::Return {
        input: Box::new(source),
        items: ast::clone_items(&c.items),
        distinct: c.distinct,
    };
    proof {
        assert(projected@ == projected.parts());
    }
    let sorted = if after {
        add_sort(projected, &c.order_by)
    } else {
        projected
    };
    add_skip_limit(sorted, &c.skip, &c.limit)
}

/// WITH projects, then filters, then sorts.
pub open spec fn with_plan(c: ProjV, where_predicate: Option<ExprV>, p: PlanV) -> PlanV {
    with_skip_limit(
        with_sort(
            PlanV::With {
                input: Box::new(p),
                items: c.items,
                distinct: c.distinct,
                where_predicate,
            },
            c.order_by,
        ),
        c.skip,
        c.limit,
    )
}

fn plan_with(c: &WithClause, input: LogicalPlan) -> (r: LogicalPlan)
    ensures
        r@ == with_plan(c@, ast::maybe_expr(c.where_clause), input@),
{
    let projected = LogicalPlan::With {
        input: Box::new(input),
        items: ast::clone_items(&c.items),
        distinct: c.distinct,
        where_predicate: ast::clone_maybe_expr(&c.where_clause),
    };
    proof {
        assert(projected@ == projected.parts());
    }
    add_skip_limit(add_sort(projected, &c.order_by), &c.skip, &c.limit)
}

/// A plan followed by a clause.
pub open spec fn clause_plan(c: ClauseV, p: PlanV) -> Result<PlanV, ErrV> {
    match c {
        ClauseV::Create(parts) => create_plan(parts, p),
        ClauseV::Match(parts, kind) => match_plan(parts, kind, p),
        ClauseV::Return(proj) => Ok(return_plan(proj, p)),
        ClauseV::Where(e) => Ok(PlanV::Filter { input: Box::new(p), predicate: e }),
        ClauseV::With(proj, e) => Ok(with_plan(proj, e, p)),
        ClauseV::Unwind(e, alias) => Ok(
            PlanV::Unwind { input: Box::new(p), expression: e, alias },
        ),
        ClauseV::LoadCsv { url, alias, with_headers, field_terminator } => Ok(
            PlanV::LoadCsv { input: Box::new(p), url, alias, with_headers, field_terminator },
        ),
        ClauseV::SetItems(items) => Ok(PlanV::SetOp { input: Box::new(p), items }),
        ClauseV::Remove(items) => Ok(PlanV::RemoveOp { input: Box::new(p), items }),
        ClauseV::Delete(detach, expressions) => Ok(
            PlanV::DeleteOp { input: Box::new(p), expressions, detach },
        ),
        ClauseV::Merge { parts, on_create, on_match } => if parts.len() == 0 {
            Err(ErrV::Semantic("Empty MERGE pattern"@))
        } else {
            Ok(
                PlanV::MergeOp {
                    input: Box::new(p),
                    pattern: parts[0].element,
                    on_create,
                    on_match,
                },
            )
        },
    }
}

fn plan_clause(c: &Clause, input: LogicalPlan) -> (r: Result<LogicalPlan, CypherError>)
    ensures
        plan_outcome(r) == clause_plan(c@, input@),
{
    let r = match c {
        Clause::Create(x) => {
            return plan_create(&x.pattern.parts, input);
        },
        Clause::Match(x) => {
            return plan_match(&x.pattern.parts, x.kind, input);
        },
        Clause::Return(x) => {
            return Ok(plan_return(x, input));
        },
        Clause::With(x) => {
            return Ok(plan_with(x, input));
        },
        Clause::Where(x) => LogicalPlan::Filter {
            input: Box::new(input),
            predicate: x.expression.clone(),
        },
        Clause::Unwind(x) => LogicalPlan::Unwind {
            input: Box::new(input),
            expression: x.expression.clone(),
            alias: x.alias.clone(),
        },
        Clause::LoadCsv(x) => LogicalPlan::LoadCsv {
            input: Box::new(input),
            url: x.url.clone(),
            alias: x.alias.clone(),
            with_headers: x.with_headers,
            field_terminator: ast::clone_maybe_expr(&x.field_terminator),
        },
        Clause::SetItems(x) => LogicalPlan::SetOp {
            input: Box::new(input),
            items: ast::clone_sets(&x.items),
        },
        Clause::Remove(x) => LogicalPlan::RemoveOp {
            input: Box::new(input),
            items: ast::clone_removes(&x.items),
        },
        Clause::Delete(x) => LogicalPlan::DeleteOp {
            input: Box::new(input),
            expressions: ast::clone_exprs(&x.expressions),
            detach: x.detach,
        },
        Clause::Merge(x) => {
            if x.pattern.parts.len() == 0 {
                return Err(CypherError::SemanticError("Empty MERGE pattern".to_owned()));
            }
            LogicalPlan::MergeOp {
                input: Box::new(input),
                pattern: x.pattern.parts[0].element.clone(),
                on_create: ast::clone_opt_sets(&x.on_create),
                on_match: ast::clone_opt_sets(&x.on_match),
            }
        },
    };
    proof {
        assert(r@ == r.parts());
    }
    Ok(r)
}

// ---------------------------------------------------------------------------
// Statements
// ---------------------------------------------------------------------------

/// A plan followed by the clauses from the `i`-th on.
pub open spec fn clauses_plan(clauses: Seq<ClauseV>, i: int, p: PlanV) -> Result<PlanV, ErrV>
    decreases clauses.len() - i,
{
    if i < 0 || i >= clauses.len() {
        Ok(p)
    } else {
        match clause_plan(clauses[i], p) {
            Err(x) => Err(x),
            Ok(q) => clauses_plan(clauses, i + 1, q),
        }
    }
}

/// The plan of a statement.
pub open spec fn plan_of(s: StmtV) -> Result<PlanV, ErrV>
    decreases s,
{
    match s {
        StmtV::Query(clauses) => clauses_plan(clauses, 0, PlanV::EmptyRow),
        StmtV::Union { left, right, all } => match plan_of(*left) {
            Err(x) => Err(x),
            Ok(l) => match plan_of(*right) {
                Err(x) => Err(x),
                Ok(r) => Ok(PlanV::Union { left: Box::new(l), right: Box::new(r), all }),
            },
        },
        StmtV::CreateConstraint { variable, label, properties, constraint_type } => Ok(
            PlanV::CreateConstraint { label, properties, constraint_type },
        ),
    }
}

fn plan_query(clauses: &Vec<Clause>) -> (r: Result<LogicalPlan, CypherError>)
    ensures
        plan_outcome(r) == clauses_plan(ast::clauses_view(clauses@), 0, PlanV::EmptyRow),
{
    let mut current = LogicalPlan::EmptyRow;
    proof {
        assert(current@ == current.parts());
    }
    let mut i: usize = 0;
    while i < clauses.len()
        invariant
            i <= clauses.len(),
            clauses_plan(ast::clauses_view(clauses@), 0, PlanV::EmptyRow) == clauses_plan(
                ast::clauses_view(clauses@),
                i as int,
                current@,
            ),
        decreases clauses.len() - i,
    {
        current = plan_clause(&clauses[i], current)?;
        i += 1;
    }
    Ok(current)
}

/// The plan of a statement.
pub fn plan(stmt: &Statement) -> (r: Result<LogicalPlan, CypherError>)
    ensures
        plan_outcome(r) == plan_of(stmt@),
    decreases stmt,
{
    match stmt {
        Statement::Query(q) => plan_query(&q.clauses),
        Statement::Union { left, right, all } => {
            let l = plan(left)?;
            let r = plan(right)?;
            let p = LogicalPlan::Union { left: Box::new(l), right: Box::new(r), all: *all };
            proof {
                assert(p@ == p.parts());
            }
            Ok(p)
        },
        Statement::CreateConstraint(c) => {
            let p = LogicalPlan::CreateConstraint {
                label: c.label.clone(),
                properties: clone_texts(&c.properties),
                constraint_type: c.constraint_type,
            };
            proof {
                assert(p@ == p.parts());
            }
            Ok(p)
        },
    }
}

} // verus!
