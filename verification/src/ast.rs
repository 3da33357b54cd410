//! The syntax of queries.
//!
//! Each type has a view: the same tree over mathematical sequences.
use crate::text::{self, clone_texts};
use vstd::prelude::*;

verus! {

// ---------------------------------------------------------------------------
// Small enumerations, which are their own views
// ---------------------------------------------------------------------------

#[derive(Debug, Clone, Copy, PartialEq, Eq, Structural)]
pub enum ConstraintType {
    Unique,
    NotNull,
    NodeKey,
    PropertyType(PropertyTypeKind),
}

#[derive(Debug, Clone, Copy, PartialEq, Eq, Structural)]
pub enum PropertyTypeKind {
    Boolean,
    String,
    Integer,
    Float,
}

#[derive(Debug, Clone, Copy, PartialEq, Eq, Structural)]
pub enum MatchKind {
    Regular,
    Optional,
    Mandatory,
}

#[derive(Debug, Clone, Copy, PartialEq, Eq, Structural)]
pub enum Direction {
    Outgoing,
    Incoming,
    Undirected,
}

/// The least and the greatest number of hops of a variable-length pattern.
#[derive(Debug, Clone, Copy, PartialEq, Eq)]
pub struct RangeSpec {
    pub min: Option<u64>,
    pub max: Option<u64>,
}

#[derive(Debug, Clone, Copy, PartialEq, Eq, Structural)]
pub enum FilterPredicateKind {
    Any,
    All,
    NoneOf,
    Single,
}

#[derive(Debug, Clone, Copy, PartialEq, Eq, Structural)]
pub enum BinaryOp {
    Add,
    Sub,
    Mul,
    Div,
    Mod,
    Pow,
}

#[derive(Debug, Clone, Copy, PartialEq, Eq, Structural)]
pub enum UnaryOp {
    Neg,
    Pos,
}

#[derive(Debug, Clone, Copy, PartialEq, Eq, Structural)]
pub enum CompOp {
    Eq,
    Neq,
    Lt,
    Gt,
    Lte,
    Gte,
}

#[derive(Debug, Clone, Copy, PartialEq, Eq, Structural)]
pub enum StringMatchOp {
    StartsWith,
    EndsWith,
    Contains,
}

// ---------------------------------------------------------------------------
// Expressions and patterns
// ---------------------------------------------------------------------------

#[derive(Debug)]
#[allow(inconsistent_fields)]
pub enum Expression {
    Literal(Literal),
    Variable(String),
    Property(Box<Expression>, String),
    BinaryOp { left: Box<Expression>, op: BinaryOp, right: Box<Expression> },
    UnaryOp { op: UnaryOp, operand: Box<Expression> },
    Comparison { left: Box<Expression>, op: CompOp, right: Box<Expression> },
    And(Box<Expression>, Box<Expression>),
    Or(Box<Expression>, Box<Expression>),
    Xor(Box<Expression>, Box<Expression>),
    Not(Box<Expression>),
    IsNull(Box<Expression>),
    IsNotNull(Box<Expression>),
    FunctionCall { name: String, distinct: bool, args: Vec<Expression> },
    /// STARTS WITH, ENDS WITH, CONTAINS
    StringOp { left: Box<Expression>, op: StringMatchOp, right: Box<Expression> },
    /// expr =~ pattern
    RegexMatch { expr: Box<Expression>, pattern: Box<Expression> },
    /// expr IN list
    In { expr: Box<Expression>, list: Box<Expression> },
    /// expr[key]
    DynamicProperty { expr: Box<Expression>, key: Box<Expression> },
    /// expr[start..end]
    ListSlice {
        expr: Box<Expression>,
        start: Option<Box<Expression>>,
        end: Option<Box<Expression>>,
    },
    Case {
        operand: Option<Box<Expression>>,
        alternatives: Vec<CaseAlternative>,
        default: Option<Box<Expression>>,
    },
    /// [variable IN list WHERE predicate | map_expr]
    ListComprehension {
        variable: String,
        list: Box<Expression>,
        predicate: Option<Box<Expression>>,
        map_expr: Option<Box<Expression>>,
    },
    /// any/all/none/single(variable IN list WHERE predicate)
    FilterPredicate {
        kind: FilterPredicateKind,
        variable: String,
        list: Box<Expression>,
        predicate: Box<Expression>,
    },
    /// reduce(accumulator = init, variable IN list | body)
    Reduce {
        accumulator: String,
        init: Box<Expression>,
        variable: String,
        list: Box<Expression>,
        body: Box<Expression>,
    },
    /// EXISTS { pattern }: true where the pattern matches at least once, given
    /// the bindings around it.
    Exists { pattern: Box<PatternElement> },
    /// $name
    Parameter(String),
}

#[derive(Debug)]
pub struct CaseAlternative {
    pub when: Expression,
    pub then_expr: Expression,
}

#[derive(Debug)]
pub enum Literal {
    Integer(i64),
    /// The numeral of a floating-point number, as it was written.
    Float(String),
    String(String),
    Boolean(bool),
    Null,
    List(Vec<Expression>),
    MapValue(MapLiteral),
}

#[derive(Debug)]
pub enum MapKey {
    /// A fixed key, as in `{name: 1}`.
    Identifier(String),
    /// A computed key, as in `{"x": 1}` or `{$k: 1}`.
    Expression(Box<Expression>),
}

#[derive(Debug)]
pub struct MapLiteral {
    pub entries: Vec<(MapKey, Expression)>,
}

#[derive(Debug)]
pub struct NodePattern {
    pub variable: Option<String>,
    pub labels: Vec<String>,
    pub properties: Option<MapLiteral>,
}

#[derive(Debug)]
pub struct RelationshipPattern {
    pub variable: Option<String>,
    pub rel_types: Vec<String>,
    pub direction: Direction,
    pub range: Option<RangeSpec>,
    pub properties: Option<MapLiteral>,
}

#[derive(Debug)]
pub struct PatternChainElement {
    pub relationship: RelationshipPattern,
    pub node: NodePattern,
}

#[derive(Debug)]
pub enum PatternElement {
    Node(NodePattern),
    Chain { start: NodePattern, elements: Vec<PatternChainElement> },
    /// shortestPath((a)-[..]->(b))
    ShortestPath { start: NodePattern, relationship: RelationshipPattern, end: NodePattern },
    /// allShortestPaths((a)-[..]->(b))
    AllShortestPaths { start: NodePattern, relationship: RelationshipPattern, end: NodePattern },
}

// ---------------------------------------------------------------------------
// Views of expressions and patterns
// ---------------------------------------------------------------------------

/// The view of an `Expression`.
#[allow(inconsistent_fields)]
pub enum ExprV {
    Literal(LitV),
    Variable(Seq<char>),
    Property(Box<ExprV>, Seq<char>),
    BinaryOp { left: Box<ExprV>, op: BinaryOp, right: Box<ExprV> },
    UnaryOp { op: UnaryOp, operand: Box<ExprV> },
    Comparison { left: Box<ExprV>, op: CompOp, right: Box<ExprV> },
    And(Box<ExprV>, Box<ExprV>),
    Or(Box<ExprV>, Box<ExprV>),
    Xor(Box<ExprV>, Box<ExprV>),
    Not(Box<ExprV>),
    IsNull(Box<ExprV>),
    IsNotNull(Box<ExprV>),
    FunctionCall { name: Seq<char>, distinct: bool, args: Seq<ExprV> },
    StringOp { left: Box<ExprV>, op: StringMatchOp, right: Box<ExprV> },
    RegexMatch { expr: Box<ExprV>, pattern: Box<ExprV> },
    In { expr: Box<ExprV>, list: Box<ExprV> },
    DynamicProperty { expr: Box<ExprV>, key: Box<ExprV> },
    ListSlice { expr: Box<ExprV>, start: Option<Box<ExprV>>, end: Option<Box<ExprV>> },
    Case { operand: Option<Box<ExprV>>, alternatives: Seq<CaseV>, default: Option<Box<ExprV>> },
    ListComprehension {
        variable: Seq<char>,
        list: Box<ExprV>,
        predicate: Option<Box<ExprV>>,
        map_expr: Option<Box<ExprV>>,
    },
    FilterPredicate {
        kind: FilterPredicateKind,
        variable: Seq<char>,
        list: Box<ExprV>,
        predicate: Box<ExprV>,
    },
    Reduce {
        accumulator: Seq<char>,
        init: Box<ExprV>,
        variable: Seq<char>,
        list: Box<ExprV>,
        body: Box<ExprV>,
    },
    Exists { pattern: Box<PatternV> },
    Parameter(Seq<char>),
}

pub struct CaseV {
    pub when: ExprV,
    pub then_expr: ExprV,
}

pub enum LitV {
    Integer(i64),
    Float(Seq<char>),
    Str(Seq<char>),
    Boolean(bool),
    Null,
    List(Seq<ExprV>),
    Dict(Seq<(KeyV, ExprV)>),
}

pub enum KeyV {
    Identifier(Seq<char>),
    Expression(Box<ExprV>),
}

pub struct NodePatV {
    pub variable: Option<Seq<char>>,
    pub labels: Seq<Seq<char>>,
    pub properties: Option<Seq<(KeyV, ExprV)>>,
}

pub struct RelPatV {
    pub variable: Option<Seq<char>>,
    pub rel_types: Seq<Seq<char>>,
    pub direction: Direction,
    pub range: Option<RangeSpec>,
    pub properties: Option<Seq<(KeyV, ExprV)>>,
}

pub struct ChainV {
    pub relationship: RelPatV,
    pub node: NodePatV,
}

pub enum PatternV {
    Node(NodePatV),
    Chain { start: NodePatV, elements: Seq<ChainV> },
    ShortestPath { start: NodePatV, relationship: RelPatV, end: NodePatV },
    AllShortestPaths { start: NodePatV, relationship: RelPatV, end: NodePatV },
}

/// The view of an optional text.
pub open spec fn opt_text(o: Option<String>) -> Option<Seq<char>> {
    match o {
        Some(s) => Some(s@),
        None => None,
    }
}

impl Expression {
    pub open spec fn view(&self) -> ExprV
        decreases self, 1nat,
    {
        self.parts()
    }

    /// The view, from the views of the parts.
    pub open spec fn parts(&self) -> ExprV
        decreases self, 0nat,
    {
        match self {
            Expression::Literal(l) => ExprV::Literal(l.view()),
            Expression::Variable(s) => ExprV::Variable(s@),
            Expression::Property(e, s) => ExprV::Property(Box::new((*e).view()), s@),
            Expression::BinaryOp { left, op, right } => ExprV::BinaryOp {
                left: Box::new((*left).view()),
                op: *op,
                right: Box::new((*right).view()),
            },
            Expression::UnaryOp { op, operand } => ExprV::UnaryOp {
                op: *op,
                operand: Box::new((*operand).view()),
            },
            Expression::Comparison { left, op, right } => ExprV::Comparison {
                left: Box::new((*left).view()),
                op: *op,
                right: Box::new((*right).view()),
            },
            Expression::And(l, r) => ExprV::And(Box::new((*l).view()), Box::new((*r).view())),
            Expression::Or(l, r) => ExprV::Or(Box::new((*l).view()), Box::new((*r).view())),
            Expression::Xor(l, r) => ExprV::Xor(Box::new((*l).view()), Box::new((*r).view())),
            Expression::Not(e) => ExprV::Not(Box::new((*e).view())),
            Expression::IsNull(e) => ExprV::IsNull(Box::new((*e).view())),
            Expression::IsNotNull(e) => ExprV::IsNotNull(Box::new((*e).view())),
            Expression::FunctionCall { name, distinct, args } => ExprV::FunctionCall {
                name: name@,
                distinct: *distinct,
                args: exprs_view(args@),
            },
            Expression::StringOp { left, op, right } => ExprV::StringOp {
                left: Box::new((*left).view()),
                op: *op,
                right: Box::new((*right).view()),
            },
            Expression::RegexMatch { expr, pattern } => ExprV::RegexMatch {
                expr: Box::new((*expr).view()),
                pattern: Box::new((*pattern).view()),
            },
            Expression::In { expr, list } => ExprV::In {
                expr: Box::new((*expr).view()),
                list: Box::new((*list).view()),
            },
            Expression::DynamicProperty { expr, key } => ExprV::DynamicProperty {
                expr: Box::new((*expr).view()),
                key: Box::new((*key).view()),
            },
            Expression::ListSlice { expr, start, end } => ExprV::ListSlice {
                expr: Box::new((*expr).view()),
                start: opt_expr(*start),
                end: opt_expr(*end),
            },
            Expression::Case { operand, alternatives, default } => ExprV::Case {
                operand: opt_expr(*operand),
                alternatives: cases_view(alternatives@),
                default: opt_expr(*default),
            },
            Expression::ListComprehension { variable, list, predicate, map_expr } =>
                ExprV::ListComprehension {
                variable: variable@,
                list: Box::new((*list).view()),
                predicate: opt_expr(*predicate),
                map_expr: opt_expr(*map_expr),
            },
            Expression::FilterPredicate { kind, variable, list, predicate } =>
                ExprV::FilterPredicate {
                kind: *kind,
                variable: variable@,
                list: Box::new((*list).view()),
                predicate: Box::new((*predicate).view()),
            },
            Expression::Reduce { accumulator, init, variable, list, body } => ExprV::Reduce {
                accumulator: accumulator@,
                init: Box::new((*init).view()),
                variable: variable@,
                list: Box::new((*list).view()),
                body: Box::new((*body).view()),
            },
            Expression::Exists { pattern } => ExprV::Exists { pattern: Box::new((*pattern).view()) },
            Expression::Parameter(s) => ExprV::Parameter(s@),
        }
    }
}

pub open spec fn opt_expr(o: Option<Box<Expression>>) -> Option<Box<ExprV>>
    decreases o, 0nat,
{
    match o {
        Some(e) => Some(Box::new((*e).view())),
        None => None,
    }
}

pub open spec fn exprs_view(s: Seq<Expression>) -> Seq<ExprV>
    decreases s, 0nat,
{
    Seq::new(
        s.len(),
        |i: int|
            if 0 <= i < s.len() {
                s[i].view()
            } else {
                arbitrary()
            },
    )
}

pub open spec fn cases_view(s: Seq<CaseAlternative>) -> Seq<CaseV>
    decreases s, 0nat,
{
    Seq::new(
        s.len(),
        |i: int|
            if 0 <= i < s.len() {
                CaseV { when: s[i].when.view(), then_expr: s[i].then_expr.view() }
            } else {
                arbitrary()
            },
    )
}

impl Literal {
    pub open spec fn view(&self) -> LitV
        decreases self, 0nat,
    {
        match self {
            Literal::Integer(i) => LitV::Integer(*i),
            Literal::Float(s) => LitV::Float(s@),
            Literal::String(s) => LitV::Str(s@),
            Literal::Boolean(b) => LitV::Boolean(*b),
            Literal::Null => LitV::Null,
            Literal::List(v) => LitV::List(exprs_view(v@)),
            Literal::MapValue(m) => LitV::Dict(m.view()),
        }
    }
}

impl MapKey {
    pub open spec fn view(&self) -> KeyV
        decreases self, 0nat,
    {
        match self {
            MapKey::Identifier(s) => KeyV::Identifier(s@),
            MapKey::Expression(e) => KeyV::Expression(Box::new((*e).view())),
        }
    }
}

impl MapLiteral {
    pub open spec fn view(&self) -> Seq<(KeyV, ExprV)>
        decreases self, 0nat,
    {
        entries_view(self.entries@)
    }
}

pub open spec fn entries_view(s: Seq<(MapKey, Expression)>) -> Seq<(KeyV, ExprV)>
    decreases s, 0nat,
{
    Seq::new(
        s.len(),
        |i: int|
            if 0 <= i < s.len() {
                (s[i].0.view(), s[i].1.view())
            } else {
                arbitrary()
            },
    )
}

pub open spec fn opt_map(o: Option<MapLiteral>) -> Option<Seq<(KeyV, ExprV)>>
    decreases o, 0nat,
{
    match o {
        Some(m) => Some(m.view()),
        None => None,
    }
}

impl NodePattern {
    pub open spec fn view(&self) -> NodePatV
        decreases self, 0nat,
    {
        NodePatV {
            variable: opt_text(self.variable),
            labels: text::texts_view(self.labels@),
            properties: opt_map(self.properties),
        }
    }
}

impl RelationshipPattern {
    pub open spec fn view(&self) -> RelPatV
        decreases self, 0nat,
    {
        RelPatV {
            variable: opt_text(self.variable),
            rel_types: text::texts_view(self.rel_types@),
            direction: self.direction,
            range: self.range,
            properties: opt_map(self.properties),
        }
    }
}

impl PatternChainElement {
    pub open spec fn view(&self) -> ChainV
        decreases self, 0nat,
    {
        ChainV { relationship: self.relationship.view(), node: self.node.view() }
    }
}

pub open spec fn chain_view(s: Seq<PatternChainElement>) -> Seq<ChainV>
    decreases s, 0nat,
{
    Seq::new(
        s.len(),
        |i: int|
            if 0 <= i < s.len() {
                s[i].view()
            } else {
                arbitrary()
            },
    )
}

impl PatternElement {
    pub open spec fn view(&self) -> PatternV
        decreases self, 0nat,
    {
        match self {
            PatternElement::Node(n) => PatternV::Node(n.view()),
            PatternElement::Chain { start, elements } => PatternV::Chain {
                start: start.view(),
                elements: chain_view(elements@),
            },
            PatternElement::ShortestPath { start, relationship, end } => PatternV::ShortestPath {
                start: start.view(),
                relationship: relationship.view(),
                end: end.view(),
            },
            PatternElement::AllShortestPaths { start, relationship, end } =>
                PatternV::AllShortestPaths {
                start: start.view(),
                relationship: relationship.view(),
                end: end.view(),
            },
        }
    }
}

// ---------------------------------------------------------------------------
// Copies of expressions and patterns
// ---------------------------------------------------------------------------

pub fn clone_opt_text(o: &Option<String>) -> (r: Option<String>)
    ensures
        opt_text(r) == opt_text(*o),
{
    match o {
        Some(s) => Some(s.clone()),
        None => None,
    }
}

pub fn clone_opt_box(o: &Option<Box<Expression>>) -> (r: Option<Box<Expression>>)
    ensures
        opt_expr(r) == opt_expr(*o),
    decreases o,
{
    match o {
        Some(b) => Some(Box::new((**b).clone())),
        None => None,
    }
}

pub fn clone_exprs(v: &Vec<Expression>) -> (r: Vec<Expression>)
    ensures
        exprs_view(r@) == exprs_view(v@),
    decreases v,
{
    let mut r: Vec<Expression> = Vec::new();
    let mut i: usize = 0;
    while i < v.len()
        invariant
            i <= v.len(),
            r@.len() == i,
            forall|j: int| 0 <= j < i ==> (#[trigger] r@[j])@ == v@[j]@,
        decreases v.len() - i,
    {
        let c = v[i].clone();
        r.push(c);
        i += 1;
    }
    proof {
        assert(exprs_view(r@) =~= exprs_view(v@));
    }
    r
}

fn clone_cases(v: &Vec<CaseAlternative>) -> (r: Vec<CaseAlternative>)
    ensures
        cases_view(r@) == cases_view(v@),
    decreases v,
{
    let mut r: Vec<CaseAlternative> = Vec::new();
    let mut i: usize = 0;
    while i < v.len()
        invariant
            i <= v.len(),
            r@.len() == i,
            forall|j: int|
                0 <= j < i ==> (#[trigger] r@[j]).when@ == v@[j].when@ && r@[j].then_expr@
                    == v@[j].then_expr@,
        decreases v.len() - i,
    {
        let when = v[i].when.clone();
        let then_expr = v[i].then_expr.clone();
        r.push(CaseAlternative { when, then_expr });
        i += 1;
    }
    proof {
        assert(cases_view(r@) =~= cases_view(v@));
    }
    r
}

impl Clone for Expression {
    fn clone(&self) -> (r: Self)
        ensures
            r@ == self@,
        decreases self,
    {
        proof {
            assert(self@ == self.parts());
        }
        let r = match self {
            Expression::Literal(l) => Expression::Literal(l.clone()),
            Expression::Variable(s) => Expression::Variable(s.clone()),
            Expression::Property(e, s) => Expression::Property(Box::new((**e).clone()), s.clone()),
            Expression::BinaryOp { left, op, right } => Expression::BinaryOp {
                left: Box::new((**left).clone()),
                op: *op,
                right: Box::new((**right).clone()),
            },
            Expression::UnaryOp { op, operand } => Expression::UnaryOp {
                op: *op,
                operand: Box::new((**operand).clone()),
            },
            Expression::Comparison { left, op, right } => Expression::Comparison {
                left: Box::new((**left).clone()),
                op: *op,
                right: Box::new((**right).clone()),
            },
            Expression::And(l, r) => Expression::And(Box::new((**l).clone()), Box::new((**r).clone())),
            Expression::Or(l, r) => Expression::Or(Box::new((**l).clone()), Box::new((**r).clone())),
            Expression::Xor(l, r) => Expression::Xor(Box::new((**l).clone()), Box::new((**r).clone())),
            Expression::Not(e) => Expression::Not(Box::new((**e).clone())),
            Expression::IsNull(e) => Expression::IsNull(Box::new((**e).clone())),
            Expression::IsNotNull(e) => Expression::IsNotNull(Box::new((**e).clone())),
            Expression::FunctionCall { name, distinct, args } => Expression::FunctionCall {
                name: name.clone(),
                distinct: *distinct,
                args: clone_exprs(args),
            },
            Expression::StringOp { left, op, right } => Expression::StringOp {
                left: Box::new((**left).clone()),
                op: *op,
                right: Box::new((**right).clone()),
            },
            Expression::RegexMatch { expr, pattern } => Expression::RegexMatch {
                expr: Box::new((**expr).clone()),
                pattern: Box::new((**pattern).clone()),
            },
            Expression::In { expr, list } => Expression::In {
                expr: Box::new((**expr).clone()),
                list: Box::new((**list).clone()),
            },
            Expression::DynamicProperty { expr, key } => Expression::DynamicProperty {
                expr: Box::new((**expr).clone()),
                key: Box::new((**key).clone()),
            },
            Expression::ListSlice { expr, start, end } => Expression::ListSlice {
                expr: Box::new((**expr).clone()),
                start: clone_opt_box(start),
                end: clone_opt_box(end),
            },
            Expression::Case { operand, alternatives, default } => Expression::Case {
                operand: clone_opt_box(operand),
                alternatives: clone_cases(alternatives),
                default: clone_opt_box(default),
            },
            Expression::ListComprehension { variable, list, predicate, map_expr } =>
                Expression::ListComprehension {
                variable: variable.clone(),
                list: Box::new((**list).clone()),
                predicate: clone_opt_box(predicate),
                map_expr: clone_opt_box(map_expr),
            },
            Expression::FilterPredicate { kind, variable, list, predicate } =>
                Expression::FilterPredicate {
                kind: *kind,
                variable: variable.clone(),
                list: Box::new((**list).clone()),
                predicate: Box::new((**predicate).clone()),
            },
            Expression::Reduce { accumulator, init, variable, list, body } => Expression::Reduce {
                accumulator: accumulator.clone(),
                init: Box::new((**init).clone()),
                variable: variable.clone(),
                list: Box::new((**list).clone()),
                body: Box::new((**body).clone()),
            },
            Expression::Exists { pattern } => {
                let p: &PatternElement = &**pattern;
                Expression::Exists { pattern: Box::new(p.clone()) }
            },
            Expression::Parameter(s) => Expression::Parameter(s.clone()),
        };
        proof {
            assert(r@ == r.parts());
        }
        r
    }
}

impl Clone for Literal {
    fn clone(&self) -> (r: Self)
        ensures
            r@ == self@,
        decreases self,
    {
        match self {
            Literal::Integer(i) => Literal::Integer(*i),
            Literal::Float(s) => Literal::Float(s.clone()),
            Literal::String(s) => Literal::String(s.clone()),
            Literal::Boolean(b) => Literal::Boolean(*b),
            Literal::Null => Literal::Null,
            Literal::List(v) => Literal::List(clone_exprs(v)),
            Literal::MapValue(m) => Literal::MapValue(m.clone()),
        }
    }
}

impl Clone for MapKey {
    fn clone(&self) -> (r: Self)
        ensures
            r@ == self@,
        decreases self,
    {
        match self {
            MapKey::Identifier(s) => MapKey::Identifier(s.clone()),
            MapKey::Expression(e) => MapKey::Expression(Box::new((**e).clone())),
        }
    }
}

fn clone_entry(e: &(MapKey, Expression)) -> (r: (MapKey, Expression))
    ensures
        r.0@ == e.0@,
        r.1@ == e.1@,
    decreases e,
{
    let k = e.0.clone();
    let v = e.1.clone();
    (k, v)
}

fn clone_entries(v: &Vec<(MapKey, Expression)>) -> (r: Vec<(MapKey, Expression)>)
    ensures
        entries_view(r@) == entries_view(v@),
    decreases v,
{
    let mut r: Vec<(MapKey, Expression)> = Vec::new();
    let mut i: usize = 0;
    while i < v.len()
        invariant
            i <= v.len(),
            r@.len() == i,
            forall|j: int|
                0 <= j < i ==> (#[trigger] r@[j]).0@ == v@[j].0@ && r@[j].1@ == v@[j].1@,
        decreases v.len() - i,
    {
        let e = clone_entry(&v[i]);
        r.push(e);
        i += 1;
    }
    proof {
        assert(entries_view(r@) =~= entries_view(v@));
    }
    r
}

impl Clone for MapLiteral {
    fn clone(&self) -> (r: Self)
        ensures
            r@ == self@,
        decreases self,
    {
        MapLiteral { entries: clone_entries(&self.entries) }
    }
}

fn clone_opt_map(o: &Option<MapLiteral>) -> (r: Option<MapLiteral>)
    ensures
        opt_map(r) == opt_map(*o),
    decreases o,
{
    match o {
        Some(m) => Some(m.clone()),
        None => None,
    }
}

impl Clone for NodePattern {
    fn clone(&self) -> (r: Self)
        ensures
            r@ == self@,
        decreases self,
    {
        NodePattern {
            variable: clone_opt_text(&self.variable),
            labels: clone_texts(&self.labels),
            properties: clone_opt_map(&self.properties),
        }
    }
}

impl Clone for RelationshipPattern {
    fn clone(&self) -> (r: Self)
        ensures
            r@ == self@,
        decreases self,
    {
        RelationshipPattern {
            variable: clone_opt_text(&self.variable),
            rel_types: clone_texts(&self.rel_types),
            direction: self.direction,
            range: self.range,
            properties: clone_opt_map(&self.properties),
        }
    }
}

pub fn clone_chain(v: &Vec<PatternChainElement>) -> (r: Vec<PatternChainElement>)
    ensures
        chain_view(r@) == chain_view(v@),
    decreases v,
{
    let mut r: Vec<PatternChainElement> = Vec::new();
    let mut i: usize = 0;
    while i < v.len()
        invariant
            i <= v.len(),
            r@.len() == i,
            forall|j: int| 0 <= j < i ==> (#[trigger] r@[j])@ == v@[j]@,
        decreases v.len() - i,
    {
        let relationship = v[i].relationship.clone();
        let node = v[i].node.clone();
        r.push(PatternChainElement { relationship, node });
        i += 1;
    }
    proof {
        assert(chain_view(r@) =~= chain_view(v@));
    }
    r
}

impl Clone for PatternElement {
    fn clone(&self) -> (r: Self)
        ensures
            r@ == self@,
        decreases self,
    {
        match self {
            PatternElement::Node(n) => PatternElement::Node(n.clone()),
            PatternElement::Chain { start, elements } => PatternElement::Chain {
                start: start.clone(),
                elements: clone_chain(elements),
            },
            PatternElement::ShortestPath { start, relationship, end } =>
                PatternElement::ShortestPath {
                start: start.clone(),
                relationship: relationship.clone(),
                end: end.clone(),
            },
            PatternElement::AllShortestPaths { start, relationship, end } =>
                PatternElement::AllShortestPaths {
                start: start.clone(),
                relationship: relationship.clone(),
                end: end.clone(),
            },
        }
    }
}

// ---------------------------------------------------------------------------
// Clauses and statements
// ---------------------------------------------------------------------------

#[derive(Debug)]
pub enum Statement {
    Query(Query),
    Union { left: Box<Statement>, right: Box<Statement>, all: bool },
    CreateConstraint(CreateConstraintStatement),
}

#[derive(Debug)]
pub struct CreateConstraintStatement {
    pub variable: String,
    pub label: String,
    /// One property, or several for a node key.
    pub properties: Vec<String>,
    pub constraint_type: ConstraintType,
}

#[derive(Debug)]
pub struct Query {
    pub clauses: Vec<Clause>,
}

#[derive(Debug)]
pub enum Clause {
    Create(CreateClause),
    Match(MatchClause),
    Return(ReturnClause),
    Where(WhereClause),
    With(WithClause),
    Unwind(UnwindClause),
    LoadCsv(LoadCsvClause),
    SetItems(SetClause),
    Remove(RemoveClause),
    Delete(DeleteClause),
    Merge(MergeClause),
}

#[derive(Debug)]
pub struct CreateClause {
    pub pattern: Pattern,
}

#[derive(Debug)]
pub struct MatchClause {
    pub pattern: Pattern,
    pub kind: MatchKind,
}

#[derive(Debug)]
pub struct WhereClause {
    pub expression: Expression,
}

#[derive(Debug)]
pub struct ReturnClause {
    pub items: Vec<ReturnItem>,
    pub distinct: bool,
    pub order_by: Option<Vec<SortItem>>,
    pub skip: Option<Expression>,
    pub limit: Option<Expression>,
}

/// WITH: like RETURN, but the query goes on with the rows.
#[derive(Debug)]
pub struct WithClause {
    pub items: Vec<ReturnItem>,
    pub distinct: bool,
    pub order_by: Option<Vec<SortItem>>,
    pub skip: Option<Expression>,
    pub limit: Option<Expression>,
    pub where_clause: Option<Expression>,
}

/// UNWIND: one row for each item of a list.
#[derive(Debug)]
pub struct UnwindClause {
    pub expression: Expression,
    pub alias: String,
}

/// LOAD CSV: one row for each record of a file.
#[derive(Debug)]
pub struct LoadCsvClause {
    /// The URL or path of the file.
    pub url: Expression,
    /// The variable that each record is bound to.
    pub alias: String,
    /// The first record names the fields, and each row is a map.
    pub with_headers: bool,
    /// A string whose first character separates the fields.
    pub field_terminator: Option<Expression>,
}

#[derive(Debug)]
pub struct SetClause {
    pub items: Vec<SetItem>,
}

#[derive(Debug)]
pub enum SetItem {
    /// SET n.prop = expr
    Property { variable: String, property: String, expression: Expression },
    /// SET n = expr
    AllProperties { variable: String, expression: Expression },
    /// SET n += expr
    MergeProperties { variable: String, expression: Expression },
    /// SET n:Label
    Label { variable: String, labels: Vec<String> },
}

#[derive(Debug)]
pub struct RemoveClause {
    pub items: Vec<RemoveItem>,
}

#[derive(Debug)]
pub enum RemoveItem {
    /// REMOVE n.prop
    Property { variable: String, property: String },
    /// REMOVE n:Label
    Label { variable: String, labels: Vec<String> },
}

#[derive(Debug)]
pub struct DeleteClause {
    pub detach: bool,
    pub expressions: Vec<Expression>,
}

#[derive(Debug)]
pub struct MergeClause {
    pub pattern: Pattern,
    pub on_create: Option<Vec<SetItem>>,
    pub on_match: Option<Vec<SetItem>>,
}

#[derive(Debug)]
pub struct ReturnItem {
    pub expression: Expression,
    pub alias: Option<String>,
}

#[derive(Debug)]
pub struct SortItem {
    pub expression: Expression,
    pub ascending: bool,
}

#[derive(Debug)]
pub struct Pattern {
    pub parts: Vec<PatternPart>,
}

#[derive(Debug)]
pub struct PatternPart {
    pub variable: Option<String>,
    pub element: PatternElement,
}

// ---------------------------------------------------------------------------
// Views of clauses and statements
// ---------------------------------------------------------------------------

pub enum StmtV {
    Query(Seq<ClauseV>),
    Union { left: Box<StmtV>, right: Box<StmtV>, all: bool },
    CreateConstraint {
        variable: Seq<char>,
        label: Seq<char>,
        properties: Seq<Seq<char>>,
        constraint_type: ConstraintType,
    },
}

pub enum ClauseV {
    Create(Seq<PartV>),
    Match(Seq<PartV>, MatchKind),
    Return(ProjV),
    Where(ExprV),
    With(ProjV, Option<ExprV>),
    Unwind(ExprV, Seq<char>),
    LoadCsv { url: ExprV, alias: Seq<char>, with_headers: bool, field_terminator: Option<ExprV> },
    SetItems(Seq<SetV>),
    Remove(Seq<RemoveV>),
    Delete(bool, Seq<ExprV>),
    Merge { parts: Seq<PartV>, on_create: Option<Seq<SetV>>, on_match: Option<Seq<SetV>> },
}

/// The view of a projection: what RETURN and WITH have in common.
pub struct ProjV {
    pub items: Seq<ItemV>,
    pub distinct: bool,
    pub order_by: Option<Seq<SortV>>,
    pub skip: Option<ExprV>,
    pub limit: Option<ExprV>,
}

pub enum SetV {
    Property { variable: Seq<char>, property: Seq<char>, expression: ExprV },
    AllProperties { variable: Seq<char>, expression: ExprV },
    MergeProperties { variable: Seq<char>, expression: ExprV },
    Label { variable: Seq<char>, labels: Seq<Seq<char>> },
}

pub enum RemoveV {
    Property { variable: Seq<char>, property: Seq<char> },
    Label { variable: Seq<char>, labels: Seq<Seq<char>> },
}

pub struct ItemV {
    pub expression: ExprV,
    pub alias: Option<Seq<char>>,
}

pub struct SortV {
    pub expression: ExprV,
    pub ascending: bool,
}

pub struct PartV {
    pub variable: Option<Seq<char>>,
    pub element: PatternV,
}

/// The view of an optional expression.
pub open spec fn maybe_expr(o: Option<Expression>) -> Option<ExprV> {
    match o {
        Some(e) => Some(e@),
        None => None,
    }
}

impl ReturnItem {
    pub open spec fn view(&self) -> ItemV {
        ItemV { expression: self.expression@, alias: opt_text(self.alias) }
    }
}

impl SortItem {
    pub open spec fn view(&self) -> SortV {
        SortV { expression: self.expression@, ascending: self.ascending }
    }
}

impl PatternPart {
    pub open spec fn view(&self) -> PartV {
        PartV { variable: opt_text(self.variable), element: self.element@ }
    }
}

impl SetItem {
    pub open spec fn view(&self) -> SetV {
        match self {
            SetItem::Property { variable, property, expression } => SetV::Property {
                variable: variable@,
                property: property@,
                expression: expression@,
            },
            SetItem::AllProperties { variable, expression } => SetV::AllProperties {
                variable: variable@,
                expression: expression@,
            },
            SetItem::MergeProperties { variable, expression } => SetV::MergeProperties {
                variable: variable@,
                expression: expression@,
            },
            SetItem::Label { variable, labels } => SetV::Label {
                variable: variable@,
                labels: text::texts_view(labels@),
            },
        }
    }
}

impl RemoveItem {
    pub open spec fn view(&self) -> RemoveV {
        match self {
            RemoveItem::Property { variable, property } => RemoveV::Property {
                variable: variable@,
                property: property@,
            },
            RemoveItem::Label { variable, labels } => RemoveV::Label {
                variable: variable@,
                labels: text::texts_view(labels@),
            },
        }
    }
}

pub open spec fn items_view(s: Seq<ReturnItem>) -> Seq<ItemV> {
    Seq::new(s.len(), |i: int| s[i]@)
}

pub open spec fn sorts_view(s: Seq<SortItem>) -> Seq<SortV> {
    Seq::new(s.len(), |i: int| s[i]@)
}

pub open spec fn parts_view(s: Seq<PatternPart>) -> Seq<PartV> {
    Seq::new(s.len(), |i: int| s[i]@)
}

pub open spec fn sets_view(s: Seq<SetItem>) -> Seq<SetV> {
    Seq::new(s.len(), |i: int| s[i]@)
}

pub open spec fn removes_view(s: Seq<RemoveItem>) -> Seq<RemoveV> {
    Seq::new(s.len(), |i: int| s[i]@)
}

pub open spec fn opt_sorts(o: Option<Vec<SortItem>>) -> Option<Seq<SortV>> {
    match o {
        Some(v) => Some(sorts_view(v@)),
        None => None,
    }
}

pub open spec fn opt_sets(o: Option<Vec<SetItem>>) -> Option<Seq<SetV>> {
    match o {
        Some(v) => Some(sets_view(v@)),
        None => None,
    }
}

impl ReturnClause {
    pub open spec fn view(&self) -> ProjV {
        ProjV {
            items: items_view(self.items@),
            distinct: self.distinct,
            order_by: opt_sorts(self.order_by),
            skip: maybe_expr(self.skip),
            limit: maybe_expr(self.limit),
        }
    }
}

impl WithClause {
    pub open spec fn view(&self) -> ProjV {
        ProjV {
            items: items_view(self.items@),
            distinct: self.distinct,
            order_by: opt_sorts(self.order_by),
            skip: maybe_expr(self.skip),
            limit: maybe_expr(self.limit),
        }
    }
}

impl Clause {
    pub open spec fn view(&self) -> ClauseV {
        match self {
            Clause::Create(c) => ClauseV::Create(parts_view(c.pattern.parts@)),
            Clause::Match(c) => ClauseV::Match(parts_view(c.pattern.parts@), c.kind),
            Clause::Return(c) => ClauseV::Return(c@),
            Clause::Where(c) => ClauseV::Where(c.expression@),
            Clause::With(c) => ClauseV::With(c@, maybe_expr(c.where_clause)),
            Clause::Unwind(c) => ClauseV::Unwind(c.expression@, c.alias@),
            Clause::LoadCsv(c) => ClauseV::LoadCsv {
                url: c.url@,
                alias: c.alias@,
                with_headers: c.with_headers,
                field_terminator: maybe_expr(c.field_terminator),
            },
            Clause::SetItems(c) => ClauseV::SetItems(sets_view(c.items@)),
            Clause::Remove(c) => ClauseV::Remove(removes_view(c.items@)),
            Clause::Delete(c) => ClauseV::Delete(c.detach, exprs_view(c.expressions@)),
            Clause::Merge(c) => ClauseV::Merge {
                parts: parts_view(c.pattern.parts@),
                on_create: opt_sets(c.on_create),
                on_match: opt_sets(c.on_match),
            },
        }
    }
}

pub open spec fn clauses_view(s: Seq<Clause>) -> Seq<ClauseV> {
    Seq::new(s.len(), |i: int| s[i]@)
}

impl Statement {
    pub open spec fn view(&self) -> StmtV
        decreases self,
    {
        match self {
            Statement::Query(q) => StmtV::Query(clauses_view(q.clauses@)),
            Statement::Union { left, right, all } => StmtV::Union {
                left: Box::new((*left).view()),
                right: Box::new((*right).view()),
                all: *all,
            },
            Statement::CreateConstraint(c) => StmtV::CreateConstraint {
                variable: c.variable@,
                label: c.label@,
                properties: text::texts_view(c.properties@),
                constraint_type: c.constraint_type,
            },
        }
    }
}

// ---------------------------------------------------------------------------
// Copies of the parts of clauses
// ---------------------------------------------------------------------------

pub fn clone_maybe_expr(o: &Option<Expression>) -> (r: Option<Expression>)
    ensures
        maybe_expr(r) == maybe_expr(*o),
{
    match o {
        Some(e) => Some(e.clone()),
        None => None,
    }
}

impl Clone for ReturnItem {
    fn clone(&self) -> (r: Self)
        ensures
            r@ == self@,
    {
        ReturnItem { expression: self.expression.clone(), alias: clone_opt_text(&self.alias) }
    }
}

impl Clone for SortItem {
    fn clone(&self) -> (r: Self)
        ensures
            r@ == self@,
    {
        SortItem { expression: self.expression.clone(), ascending: self.ascending }
    }
}

impl Clone for SetItem {
    fn clone(&self) -> (r: Self)
        ensures
            r@ == self@,
    {
        match self {
            SetItem::Property { variable, property, expression } => SetItem::Property {
                variable: variable.clone(),
                property: property.clone(),
                expression: expression.clone(),
            },
            SetItem::AllProperties { variable, expression } => SetItem::AllProperties {
                variable: variable.clone(),
                expression: expression.clone(),
            },
            SetItem::MergeProperties { variable, expression } => SetItem::MergeProperties {
                variable: variable.clone(),
                expression: expression.clone(),
            },
            SetItem::Label { variable, labels } => SetItem::Label {
                variable: variable.clone(),
                labels: clone_texts(labels),
            },
        }
    }
}

impl Clone for RemoveItem {
    fn clone(&self) -> (r: Self)
        ensures
            r@ == self@,
    {
        match self {
            RemoveItem::Property { variable, property } => RemoveItem::Property {
                variable: variable.clone(),
                property: property.clone(),
            },
            RemoveItem::Label { variable, labels } => RemoveItem::Label {
                variable: variable.clone(),
                labels: clone_texts(labels),
            },
        }
    }
}

pub fn clone_items(v: &Vec<ReturnItem>) -> (r: Vec<ReturnItem>)
    ensures
        items_view(r@) == items_view(v@),
{
    let mut r: Vec<ReturnItem> = Vec::new();
    let mut i: usize = 0;
    while i < v.len()
        invariant
            i <= v.len(),
            r@.len() == i,
            forall|j: int| 0 <= j < i ==> (#[trigger] r@[j])@ == v@[j]@,
        decreases v.len() - i,
    {
        let c = v[i].clone();
        r.push(c);
        i += 1;
    }
    proof {
        assert(items_view(r@) =~= items_view(v@));
    }
    r
}

pub fn clone_sorts(v: &Vec<SortItem>) -> (r: Vec<SortItem>)
    ensures
        sorts_view(r@) == sorts_view(v@),
{
    let mut r: Vec<SortItem> = Vec::new();
    let mut i: usize = 0;
    while i < v.len()
        invariant
            i <= v.len(),
            r@.len() == i,
            forall|j: int| 0 <= j < i ==> (#[trigger] r@[j])@ == v@[j]@,
        decreases v.len() - i,
    {
        let c = v[i].clone();
        r.push(c);
        i += 1;
    }
    proof {
        assert(sorts_view(r@) =~= sorts_view(v@));
    }
    r
}

pub fn clone_sets(v: &Vec<SetItem>) -> (r: Vec<SetItem>)
    ensures
        sets_view(r@) == sets_view(v@),
{
    let mut r: Vec<SetItem> = Vec::new();
    let mut i: usize = 0;
    while i < v.len()
        invariant
            i <= v.len(),
            r@.len() == i,
            forall|j: int| 0 <= j < i ==> (#[trigger] r@[j])@ == v@[j]@,
        decreases v.len() - i,
    {
        let c = v[i].clone();
        r.push(c);
        i += 1;
    }
    proof {
        assert(sets_view(r@) =~= sets_view(v@));
    }
    r
}

pub fn clone_opt_sets(o: &Option<Vec<SetItem>>) -> (r: Option<Vec<SetItem>>)
    ensures
        opt_sets(r) == opt_sets(*o),
{
    match o {
        Some(v) => Some(clone_sets(v)),
        None => None,
    }
}

pub fn clone_removes(v: &Vec<RemoveItem>) -> (r: Vec<RemoveItem>)
    ensures
        removes_view(r@) == removes_view(v@),
{
    let mut r: Vec<RemoveItem> = Vec::new();
    let mut i: usize = 0;
    while i < v.len()
        invariant
            i <= v.len(),
            r@.len() == i,
            forall|j: int| 0 <= j < i ==> (#[trigger] r@[j])@ == v@[j]@,
        decreases v.len() - i,
    {
        let c = v[i].clone();
        r.push(c);
        i += 1;
    }
    proof {
        assert(removes_view(r@) =~= removes_view(v@));
    }
    r
}

} // verus!
