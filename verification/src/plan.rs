//! Logical plans: what a query does, step by step.
use crate::ast::{
    self, ConstraintType, Direction, Expression, ExprV, ItemV, NodePattern, NodePatV,
    PatternChainElement, ChainV, PatternElement, PatternV, RemoveItem, RemoveV, ReturnItem,
    SetItem, SetV, SortItem, SortV,
};
use crate::text;
use vstd::prelude::*;

verus! {

#[derive(Debug)]
#[allow(inconsistent_fields)]
pub enum LogicalPlan {
    /// Create a single node with labels and properties.
    CreateNode { input: Box<LogicalPlan>, pattern: NodePattern },
    /// Create a path: a start node and a chain of relationships and nodes.
    CreatePath {
        input: Box<LogicalPlan>,
        start: NodePattern,
        elements: Vec<PatternChainElement>,
    },
    /// All nodes, or those with a label. The properties that the pattern asks
    /// for narrow the search where they are constants.
    ScanNodes {
        label_filter: Option<String>,
        inline_props: Vec<(String, Expression)>,
        variable: String,
    },
    /// From a node along its relationships to the nodes at the other ends.
    Expand {
        input: Box<LogicalPlan>,
        src_variable: String,
        rel_variable: Option<String>,
        dst_variable: String,
        rel_types: Vec<String>,
        direction: Direction,
    },
    /// The rows for which a predicate is true.
    Filter { input: Box<LogicalPlan>, predicate: Expression },
    /// RETURN.
    Return { input: Box<LogicalPlan>, items: Vec<ReturnItem>, distinct: bool },
    /// The rows, sorted.
    Sort { input: Box<LogicalPlan>, items: Vec<SortItem> },
    /// The rows without the first ones.
    Skip { input: Box<LogicalPlan>, count: Expression },
    /// The first rows.
    Limit { input: Box<LogicalPlan>, count: Expression },
    /// A single row without bindings.
    EmptyRow,
    /// WITH.
    With {
        input: Box<LogicalPlan>,
        items: Vec<ReturnItem>,
        distinct: bool,
        where_predicate: Option<Expression>,
    },
    /// UNWIND.
    Unwind { input: Box<LogicalPlan>, expression: Expression, alias: String },
    /// SET.
    SetOp { input: Box<LogicalPlan>, items: Vec<SetItem> },
    /// REMOVE.
    RemoveOp { input: Box<LogicalPlan>, items: Vec<RemoveItem> },
    /// DELETE.
    DeleteOp { input: Box<LogicalPlan>, expressions: Vec<Expression>, detach: bool },
    /// MERGE.
    MergeOp {
        input: Box<LogicalPlan>,
        pattern: PatternElement,
        on_create: Option<Vec<SetItem>>,
        on_match: Option<Vec<SetItem>>,
    },
    /// Each row of one plan with each row of another.
    CartesianProduct { left: Box<LogicalPlan>, right: Box<LogicalPlan> },
    /// Each row of one plan with the rows of another that agree with it on the
    /// variables of both, or with nulls where there are none.
    LeftOuterJoin { left: Box<LogicalPlan>, right: Box<LogicalPlan> },
    /// The rows, of which there must be some.
    MandatoryGuard { input: Box<LogicalPlan> },
    /// From a node along chains of relationships.
    VarLengthExpand {
        input: Box<LogicalPlan>,
        src_variable: String,
        rel_variable: Option<String>,
        dst_variable: String,
        rel_types: Vec<String>,
        direction: Direction,
        min_hops: u64,
        max_hops: Option<u64>,
    },
    /// LOAD CSV.
    LoadCsv {
        input: Box<LogicalPlan>,
        url: Expression,
        alias: String,
        with_headers: bool,
        field_terminator: Option<Expression>,
    },
    /// UNION and UNION ALL.
    Union { left: Box<LogicalPlan>, right: Box<LogicalPlan>, all: bool },
    /// CREATE CONSTRAINT.
    CreateConstraint {
        label: String,
        properties: Vec<String>,
        constraint_type: ConstraintType,
    },
    /// One shortest path between two bound nodes, or all of them.
    ShortestPath {
        input: Box<LogicalPlan>,
        src_variable: String,
        dst_variable: String,
        rel_variable: Option<String>,
        path_variable: String,
        rel_types: Vec<String>,
        direction: Direction,
        min_hops: u64,
        max_hops: Option<u64>,
        all_shortest: bool,
    },
}

/// The view of a `LogicalPlan`.
#[allow(inconsistent_fields)]
pub enum PlanV {
    CreateNode { input: Box<PlanV>, pattern: NodePatV },
    CreatePath { input: Box<PlanV>, start: NodePatV, elements: Seq<ChainV> },
    ScanNodes {
        label_filter: Option<Seq<char>>,
        inline_props: Seq<(Seq<char>, ExprV)>,
        variable: Seq<char>,
    },
    Expand { input: Box<PlanV>, hop: HopV },
    Filter { input: Box<PlanV>, predicate: ExprV },
    Return { input: Box<PlanV>, items: Seq<ItemV>, distinct: bool },
    Sort { input: Box<PlanV>, items: Seq<SortV> },
    Skip { input: Box<PlanV>, count: ExprV },
    Limit { input: Box<PlanV>, count: ExprV },
    EmptyRow,
    With {
        input: Box<PlanV>,
        items: Seq<ItemV>,
        distinct: bool,
        where_predicate: Option<ExprV>,
    },
    Unwind { input: Box<PlanV>, expression: ExprV, alias: Seq<char> },
    SetOp { input: Box<PlanV>, items: Seq<SetV> },
    RemoveOp { input: Box<PlanV>, items: Seq<RemoveV> },
    DeleteOp { input: Box<PlanV>, expressions: Seq<ExprV>, detach: bool },
    MergeOp {
        input: Box<PlanV>,
        pattern: PatternV,
        on_create: Option<Seq<SetV>>,
        on_match: Option<Seq<SetV>>,
    },
    CartesianProduct { left: Box<PlanV>, right: Box<PlanV> },
    LeftOuterJoin { left: Box<PlanV>, right: Box<PlanV> },
    MandatoryGuard { input: Box<PlanV> },
    VarLengthExpand { input: Box<PlanV>, hop: HopV, min_hops: u64, max_hops: Option<u64> },
    LoadCsv {
        input: Box<PlanV>,
        url: ExprV,
        alias: Seq<char>,
        with_headers: bool,
        field_terminator: Option<ExprV>,
    },
    Union { left: Box<PlanV>, right: Box<PlanV>, all: bool },
    CreateConstraint {
        label: Seq<char>,
        properties: Seq<Seq<char>>,
        constraint_type: ConstraintType,
    },
    ShortestPath {
        input: Box<PlanV>,
        hop: HopV,
        path_variable: Seq<char>,
        min_hops: u64,
        max_hops: Option<u64>,
        all_shortest: bool,
    },
}

/// A step from one variable to another along relationships.
pub struct HopV {
    pub src: Seq<char>,
    pub rel: Option<Seq<char>>,
    pub dst: Seq<char>,
    pub types: Seq<Seq<char>>,
    pub direction: Direction,
}

pub open spec fn inline_view(s: Seq<(String, Expression)>) -> Seq<(Seq<char>, ExprV)> {
    Seq::new(s.len(), |i: int| (s[i].0@, s[i].1@))
}

impl LogicalPlan {
    pub open spec fn view(&self) -> PlanV
        decreases self, 1nat,
    {
        self.parts()
    }

    /// The view, from the views of the parts.
    pub open spec fn parts(&self) -> PlanV
        decreases self, 0nat,
    {
        match self {
            LogicalPlan::CreateNode { input, pattern } => PlanV::CreateNode {
                input: Box::new((*input).view()),
                pattern: pattern@,
            },
            LogicalPlan::CreatePath { input, start, elements } => PlanV::CreatePath {
                input: Box::new((*input).view()),
                start: start@,
                elements: ast::chain_view(elements@),
            },
            LogicalPlan::ScanNodes { label_filter, inline_props, variable } => PlanV::ScanNodes {
                label_filter: ast::opt_text(*label_filter),
                inline_props: inline_view(inline_props@),
                variable: variable@,
            },
            LogicalPlan::Expand {
                input,
                src_variable,
                rel_variable,
                dst_variable,
                rel_types,
                direction,
            } => PlanV::Expand {
                input: Box::new((*input).view()),
                hop: HopV {
                    src: src_variable@,
                    rel: ast::opt_text(*rel_variable),
                    dst: dst_variable@,
                    types: text::texts_view(rel_types@),
                    direction: *direction,
                },
            },
            LogicalPlan::Filter { input, predicate } => PlanV::Filter {
                input: Box::new((*input).view()),
                predicate: predicate@,
            },
            LogicalPlan::Return { input, items, distinct } => PlanV::Return {
                input: Box::new((*input).view()),
                items: ast::items_view(items@),
                distinct: *distinct,
            },
            LogicalPlan::Sort { input, items } => PlanV::Sort {
                input: Box::new((*input).view()),
                items: ast::sorts_view(items@),
            },
            LogicalPlan::Skip { input, count } => PlanV::Skip {
                input: Box::new((*input).view()),
                count: count@,
            },
            LogicalPlan::Limit { input, count } => PlanV::Limit {
                input: Box::new((*input).view()),
                count: count@,
            },
            LogicalPlan::EmptyRow => PlanV::EmptyRow,
            LogicalPlan::With { input, items, distinct, where_predicate } => PlanV::With {
                input: Box::new((*input).view()),
                items: ast::items_view(items@),
                distinct: *distinct,
                where_predicate: ast::maybe_expr(*where_predicate),
            },
            LogicalPlan::Unwind { input, expression, alias } => PlanV::Unwind {
                input: Box::new((*input).view()),
                expression: expression@,
                alias: alias@,
            },
            LogicalPlan::SetOp { input, items } => PlanV::SetOp {
                input: Box::new((*input).view()),
                items: ast::sets_view(items@),
            },
            LogicalPlan::RemoveOp { input, items } => PlanV::RemoveOp {
                input: Box::new((*input).view()),
                items: ast::removes_view(items@),
            },
            LogicalPlan::DeleteOp { input, expressions, detach } => PlanV::DeleteOp {
                input: Box::new((*input).view()),
                expressions: ast::exprs_view(expressions@),
                detach: *detach,
            },
            LogicalPlan::MergeOp { input, pattern, on_create, on_match } => PlanV::MergeOp {
                input: Box::new((*input).view()),
                pattern: pattern@,
                on_create: ast::opt_sets(*on_create),
                on_match: ast::opt_sets(*on_match),
            },
            LogicalPlan::CartesianProduct { left, right } => PlanV::CartesianProduct {
                left: Box::new((*left).view()),
                right: Box::new((*right).view()),
            },
            LogicalPlan::LeftOuterJoin { left, right } => PlanV::LeftOuterJoin {
                left: Box::new((*left).view()),
                right: Box::new((*right).view()),
            },
            LogicalPlan::MandatoryGuard { input } => PlanV::MandatoryGuard {
                input: Box::new((*input).view()),
            },
            LogicalPlan::VarLengthExpand {
                input,
                src_variable,
                rel_variable,
                dst_variable,
                rel_types,
                direction,
                min_hops,
                max_hops,
            } => PlanV::VarLengthExpand {
                input: Box::new((*input).view()),
                hop: HopV {
                    src: src_variable@,
                    rel: ast::opt_text(*rel_variable),
                    dst: dst_variable@,
                    types: text::texts_view(rel_types@),
                    direction: *direction,
                },
                min_hops: *min_hops,
                max_hops: *max_hops,
            },
            LogicalPlan::LoadCsv { input, url, alias, with_headers, field_terminator } =>
                PlanV::LoadCsv {
                input: Box::new((*input).view()),
                url: url@,
                alias: alias@,
                with_headers: *with_headers,
                field_terminator: ast::maybe_expr(*field_terminator),
            },
            LogicalPlan::Union { left, right, all } => PlanV::Union {
                left: Box::new((*left).view()),
                right: Box::new((*right).view()),
                all: *all,
            },
            LogicalPlan::CreateConstraint { label, properties, constraint_type } =>
                PlanV::CreateConstraint {
                label: label@,
                properties: text::texts_view(properties@),
                constraint_type: *constraint_type,
            },
            LogicalPlan::ShortestPath {
                input,
                src_variable,
                dst_variable,
                rel_variable,
                path_variable,
                rel_types,
                direction,
                min_hops,
                max_hops,
                all_shortest,
            } => PlanV::ShortestPath {
                input: Box::new((*input).view()),
                hop: HopV {
                    src: src_variable@,
                    rel: ast::opt_text(*rel_variable),
                    dst: dst_variable@,
                    types: text::texts_view(rel_types@),
                    direction: *direction,
                },
                path_variable: path_variable@,
                min_hops: *min_hops,
                max_hops: *max_hops,
                all_shortest: *all_shortest,
            },
        }
    }
}

/// The plan that gives a plan its rows, or the left one of two.
pub open spec fn input_of(p: PlanV) -> Option<Box<PlanV>> {
    match p {
        PlanV::CreateNode { input, .. } => Some(input),
        PlanV::CreatePath { input, .. } => Some(input),
        PlanV::Expand { input, .. } => Some(input),
        PlanV::Filter { input, .. } => Some(input),
        PlanV::Return { input, .. } => Some(input),
        PlanV::Sort { input, .. } => Some(input),
        PlanV::Skip { input, .. } => Some(input),
        PlanV::Limit { input, .. } => Some(input),
        PlanV::With { input, .. } => Some(input),
        PlanV::Unwind { input, .. } => Some(input),
        PlanV::SetOp { input, .. } => Some(input),
        PlanV::RemoveOp { input, .. } => Some(input),
        PlanV::DeleteOp { input, .. } => Some(input),
        PlanV::MergeOp { input, .. } => Some(input),
        PlanV::CartesianProduct { left, .. } => Some(left),
        PlanV::LeftOuterJoin { left, .. } => Some(left),
        PlanV::MandatoryGuard { input } => Some(input),
        PlanV::VarLengthExpand { input, .. } => Some(input),
        PlanV::LoadCsv { input, .. } => Some(input),
        PlanV::Union { left, .. } => Some(left),
        PlanV::ShortestPath { input, .. } => Some(input),
        _ => None,
    }
}

/// The right one of the two plans that a plan combines.
pub open spec fn second_of(p: PlanV) -> Option<Box<PlanV>> {
    match p {
        PlanV::CartesianProduct { right, .. } => Some(right),
        PlanV::LeftOuterJoin { right, .. } => Some(right),
        PlanV::Union { right, .. } => Some(right),
        _ => None,
    }
}

/// How many steps a plan has.
pub open spec fn plan_size(p: PlanV) -> nat
    decreases p,
{
    (match input_of(p) {
        Some(q) => if decreases_to!(p => *q) { plan_size(*q) } else { 0 },
        None => 0,
    }) + (match second_of(p) {
        Some(q) => if decreases_to!(p => *q) { plan_size(*q) } else { 0 },
        None => 0,
    }) + 1
}

/// A plan has more steps than the plans that it is made of.
pub proof fn lemma_plan_size(p: PlanV)
    ensures
        input_of(p) matches Some(q) ==> plan_size(*q) < plan_size(p),
        second_of(p) matches Some(q) ==> plan_size(*q) < plan_size(p),
{
    reveal_with_fuel(plan_size, 1);
    match input_of(p) {
        Some(q) => {
            assert(decreases_to!(p => *q));
        },
        None => {},
    }
    match second_of(p) {
        Some(q) => {
            assert(decreases_to!(p => *q));
        },
        None => {},
    }
}

} // verus!
