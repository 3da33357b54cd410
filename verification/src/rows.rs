//! Tables of rows, and the steps of plans that only read the graph.
use crate::aggregate::{
    self, execute_aggregation, items_contain_aggregation, recs_outcome, rec_outcome,
};
use crate::arrange;
use crate::assoc;
use crate::ast::{
    self, Direction, Expression, ExprV, ItemV, ReturnItem, SortItem, SortV,
};
use crate::backend::{self, StorageBackend};
use crate::error::{CypherError, ErrV};
use crate::eval::{edges_in_direction, eval_with_params, far_end, type_fits, Ctx};
use crate::keying::{self, drop_repeated};
use crate::ops::{self, is_truthy, order_values};
use crate::outside::Outside;
use crate::plan::{self, HopV};
use crate::semantics::{self, EnvV};
use crate::store::{self, StoreV};
use crate::text::{self, i64_text, join2, join3, list_has, same_text, Order};
use crate::value::{
    self, cypher_value_type_name, CypherValue, EdgeV, Node, NodeV, PropertyMap, PropertyValue,
    PropsV, PropV, RecV, Record, ValV,
};
use vstd::prelude::*;

verus! {

/// Columns and rows.
pub struct TableV {
    pub cols: Seq<Seq<char>>,
    pub rows: Seq<RecV>,
}

pub struct Table {
    pub cols: Vec<String>,
    pub rows: Vec<Record>,
}

impl Table {
    pub open spec fn view(&self) -> TableV {
        TableV { cols: text::texts_view(self.cols@), rows: value::recs_view(self.rows@) }
    }
}

/// The view of a table or an error.
pub open spec fn table_outcome(r: Result<Table, CypherError>) -> Result<TableV, ErrV> {
    match r {
        Ok(t) => Ok(t@),
        Err(e) => Err(e@),
    }
}

/// Columns with one more, if it is not there yet.
pub open spec fn with_col(cols: Seq<Seq<char>>, c: Seq<char>) -> Seq<Seq<char>> {
    if text::has_text(cols, c) {
        cols
    } else {
        cols.push(c)
    }
}

pub open spec fn with_opt_col(cols: Seq<Seq<char>>, c: Option<Seq<char>>) -> Seq<Seq<char>> {
    match c {
        Some(x) => with_col(cols, x),
        None => cols,
    }
}

pub fn add_col(cols: &mut Vec<String>, c: &str)
    ensures
        text::texts_view(final(cols)@) == with_col(text::texts_view(old(cols)@), c@),
{
    if !list_has(cols, c) {
        let x = c.to_owned();
        proof {
            assert(text::texts_view(cols@.push(x)) =~= text::texts_view(cols@).push(c@));
        }
        cols.push(x);
    }
}

pub fn add_opt_col(cols: &mut Vec<String>, c: &Option<String>)
    ensures
        text::texts_view(final(cols)@) == with_opt_col(
            text::texts_view(old(cols)@),
            ast::opt_text(*c),
        ),
{
    if let Some(x) = c {
        add_col(cols, x.as_str());
    }
}

/// A row with one more binding, if there is a variable for it.
pub open spec fn bind_opt(rec: RecV, variable: Option<Seq<char>>, v: ValV) -> RecV {
    match variable {
        Some(x) => assoc::bind(rec, x, v),
        None => rec,
    }
}

/// Puts a row behind others.
pub proof fn lemma_recs_push(rows: Seq<Record>, rec: Record)
    ensures
        value::recs_view(rows.push(rec)) == value::recs_view(rows).push(rec@),
{
    assert(value::recs_view(rows.push(rec)) =~= value::recs_view(rows).push(rec@));
}

// ---------------------------------------------------------------------------
// Nodes
// ---------------------------------------------------------------------------

/// A value that can be a property.
pub open spec fn as_property(v: ValV) -> Option<PropV> {
    match v {
        ValV::Str(s) => Some(PropV::Str(s)),
        ValV::Integer(i) => Some(PropV::Int(i)),
        ValV::Float(f) => Some(PropV::Float(f)),
        ValV::Boolean(b) => Some(PropV::Bool(b)),
        _ => None,
    }
}

/// The view of an optional property value.
pub open spec fn opt_prop(o: Option<PropertyValue>) -> Option<PropV> {
    match o {
        Some(p) => Some(p@),
        None => None,
    }
}

pub fn to_property(v: &CypherValue) -> (r: Option<PropertyValue>)
    ensures
        opt_prop(r) == as_property(v@),
{
    match v {
        CypherValue::String(s) => Some(PropertyValue::String(s.clone())),
        CypherValue::Integer(i) => Some(PropertyValue::Int(*i)),
        CypherValue::Float(f) => Some(PropertyValue::Float(*f)),
        CypherValue::Boolean(b) => Some(PropertyValue::Bool(*b)),
        _ => None,
    }
}

/// The properties that a scan asks for, from the `i`-th on; `None` where one
/// of them is no constant that can be a property.
pub open spec fn constant_props(
    props: Seq<(Seq<char>, ExprV)>,
    i: int,
    acc: PropsV,
    env: EnvV,
    st: StoreV,
) -> Option<PropsV>
    decreases props.len() - i,
{
    if i < 0 || i >= props.len() {
        Some(acc)
    } else {
        match semantics::eval(props[i].1, seq![], env.at(i), st) {
            Err(_) => None,
            Ok(v) => match as_property(v) {
                None => None,
                Some(p) => constant_props(props, i + 1, assoc::bind(acc, props[i].0, p), env, st),
            },
        }
    }
}

/// The nodes that a scan gives.
pub open spec fn scanned(
    label: Option<Seq<char>>,
    props: Seq<(Seq<char>, ExprV)>,
    env: EnvV,
    st: StoreV,
) -> Seq<NodeV> {
    if props.len() == 0 {
        store::labelled(st, label)
    } else {
        match constant_props(props, 0, seq![], env, st) {
            Some(required) => store::labelled_with(st, label, required),
            None => store::labelled(st, label),
        }
    }
}

/// One row for each node.
pub open spec fn node_rows(nodes: Seq<NodeV>, variable: Seq<char>) -> Seq<RecV> {
    Seq::new(nodes.len(), |i: int| seq![(variable, ValV::Node(nodes[i]))])
}

fn eval_constant_props<S: StorageBackend, O: Outside>(
    props: &Vec<(String, Expression)>,
    ctx: &Ctx<O>,
    storage: &S,
) -> (r: Option<PropertyMap>)
    requires
        storage.valid(),
    ensures
        match r {
            Some(m) => constant_props(
                plan::inline_view(props@),
                0,
                seq![],
                ctx.env(),
                storage.store(),
            ) == Some(m@),
            None => constant_props(
                plan::inline_view(props@),
                0,
                seq![],
                ctx.env(),
                storage.store(),
            ) is None,
        },
{
    let mut m = PropertyMap::new();
    let empty = Record::new();
    let mut i: usize = 0;
    while i < props.len()
        invariant
            storage.valid(),
            empty@ == RecV::empty(),
            i <= props.len(),
            constant_props(plan::inline_view(props@), 0, seq![], ctx.env(), storage.store())
                == constant_props(
                plan::inline_view(props@),
                i as int,
                m@,
                ctx.env(),
                storage.store(),
            ),
        decreases props.len() - i,
    {
        match eval_with_params(&props[i].1, &empty, &ctx.at(i), storage) {
            Err(_) => {
                return None;
            },
            Ok(v) => match to_property(&v) {
                None => {
                    return None;
                },
                Some(p) => {
                    m.insert(props[i].0.clone(), p);
                },
            },
        }
        i += 1;
    }
    Some(m)
}

fn opt_label(label: &Option<String>) -> (r: Option<&str>)
    ensures
        backend::opt_str(r) == ast::opt_text(*label),
{
    match label {
        Some(l) => Some(l.as_str()),
        None => None,
    }
}

/// The rows of a scan.
pub fn scan_nodes<S: StorageBackend, O: Outside>(
    label: &Option<String>,
    props: &Vec<(String, Expression)>,
    variable: &str,
    ctx: &Ctx<O>,
    storage: &S,
) -> (r: Table)
    requires
        storage.valid(),
    ensures
        r@ == (TableV {
            cols: seq![variable@],
            rows: node_rows(
                scanned(
                    ast::opt_text(*label),
                    plan::inline_view(props@),
                    ctx.env(),
                    storage.store(),
                ),
                variable@,
            ),
        }),
{
    let nodes = if props.len() == 0 {
        storage.match_nodes(opt_label(label))
    } else {
        match eval_constant_props(props, ctx, storage) {
            Some(m) => storage.match_nodes_with_props(opt_label(label), &m),
            None => storage.match_nodes(opt_label(label)),
        }
    };
    let mut rows: Vec<Record> = Vec::new();
    let mut i: usize = 0;
    while i < nodes.len()
        invariant
            i <= nodes.len(),
            rows.len() == i,
            forall|j: int|
                0 <= j < i ==> (#[trigger] rows@[j])@ == seq![(variable@, ValV::Node(nodes@[j]@))],
        decreases nodes.len() - i,
    {
        let mut rec = Record::new();
        rec.insert(variable.to_owned(), CypherValue::Node(nodes[i].clone()));
        proof {
            assert(rec@ =~= seq![(variable@, ValV::Node(nodes@[i as int]@))]);
        }
        rows.push(rec);
        i += 1;
    }
    let mut cols: Vec<String> = Vec::new();
    cols.push(variable.to_owned());
    proof {
        assert(text::texts_view(cols@) =~= seq![variable@]);
        assert(value::recs_view(rows@) =~= node_rows(value::nodes_view(nodes@), variable@));
    }
    Table { cols, rows }
}

// ---------------------------------------------------------------------------
// Expansion
// ---------------------------------------------------------------------------

/// A row after a hop along a relationship to a node.
pub open spec fn hop_row(rec: RecV, hop: HopV, rel: ValV, dst: NodeV) -> RecV {
    assoc::bind(bind_opt(rec, hop.rel, rel), hop.dst, ValV::Node(dst))
}

/// The rows after a hop along the relationships from the `j`-th on.
pub open spec fn expand_along(
    edges: Seq<EdgeV>,
    j: int,
    acc: Seq<RecV>,
    id: u64,
    rec: RecV,
    hop: HopV,
    st: StoreV,
) -> Seq<RecV>
    decreases edges.len() - j,
{
    if j < 0 || j >= edges.len() {
        acc
    } else if !semantics::of_type(hop.types, edges[j].label) {
        expand_along(edges, j + 1, acc, id, rec, hop, st)
    } else {
        match store::node_at(st, semantics::other_end(edges[j], id, hop.direction)) {
            None => expand_along(edges, j + 1, acc, id, rec, hop, st),
            Some(dst) => expand_along(
                edges,
                j + 1,
                acc.push(hop_row(rec, hop, ValV::Relationship(edges[j]), dst)),
                id,
                rec,
                hop,
                st,
            ),
        }
    }
}

/// The rows after a hop from each row from the `i`-th on. A row whose source
/// is no node is dropped.
pub open spec fn expand_rows(
    rows: Seq<RecV>,
    i: int,
    acc: Seq<RecV>,
    hop: HopV,
    st: StoreV,
) -> Seq<RecV>
    decreases rows.len() - i,
{
    if i < 0 || i >= rows.len() {
        acc
    } else {
        match assoc::lookup(rows[i], hop.src) {
            Some(ValV::Node(n)) => expand_rows(
                rows,
                i + 1,
                expand_along(
                    semantics::edges_at(st, n.id, hop.direction),
                    0,
                    acc,
                    n.id,
                    rows[i],
                    hop,
                    st,
                ),
                hop,
                st,
            ),
            _ => expand_rows(rows, i + 1, acc, hop, st),
        }
    }
}

pub open spec fn expanded(t: TableV, hop: HopV, st: StoreV) -> TableV {
    TableV {
        cols: with_col(with_opt_col(t.cols, hop.rel), hop.dst),
        rows: expand_rows(t.rows, 0, seq![], hop, st),
    }
}

/// A step from one variable to another along relationships.
pub struct Hop<'a> {
    pub src: &'a String,
    pub rel: &'a Option<String>,
    pub dst: &'a String,
    pub types: &'a Vec<String>,
    pub direction: Direction,
}

impl<'a> Hop<'a> {
    pub open spec fn view(&self) -> HopV {
        HopV {
            src: self.src@,
            rel: ast::opt_text(*self.rel),
            dst: self.dst@,
            types: text::texts_view(self.types@),
            direction: self.direction,
        }
    }
}

/// A row after a hop along a relationship to a node.
pub fn make_hop_row(rec: &Record, hop: &Hop, rel: CypherValue, dst: Node) -> (r: Record)
    ensures
        r@ == hop_row(rec@, hop@, rel@, dst@),
{
    let mut r = rec.clone();
    if let Some(x) = hop.rel {
        r.insert(x.clone(), rel);
    }
    r.insert(hop.dst.clone(), CypherValue::Node(dst));
    r
}

fn expand_row<S: StorageBackend>(
    rec: &Record,
    id: u64,
    out: &mut Vec<Record>,
    hop: &Hop,
    storage: &S,
)
    requires
        storage.valid(),
    ensures
        value::recs_view(final(out)@) == expand_along(
            semantics::edges_at(storage.store(), id, hop@.direction),
            0,
            value::recs_view(old(out)@),
            id,
            rec@,
            hop@,
            storage.store(),
        ),
{
    let edges = edges_in_direction(storage, id, hop.direction);
    let ghost es = value::edges_view(edges@);
    let ghost first = value::recs_view(out@);
    let mut j: usize = 0;
    while j < edges.len()
        invariant
            storage.valid(),
            es == value::edges_view(edges@),
            first == value::recs_view(old(out)@),
            es == semantics::edges_at(storage.store(), id, hop@.direction),
            j <= edges.len(),
            expand_along(es, 0, first, id, rec@, hop@, storage.store()) == expand_along(
                es,
                j as int,
                value::recs_view(out@),
                id,
                rec@,
                hop@,
                storage.store(),
            ),
        decreases edges.len() - j,
    {
        if type_fits(hop.types, edges[j].label.as_str()) {
            if let Some(dst) = storage.get_node(far_end(&edges[j], id, hop.direction)) {
                let row = make_hop_row(
                    rec,
                    hop,
                    CypherValue::Relationship(edges[j].clone()),
                    dst,
                );
                proof {
                    lemma_recs_push(out@, row);
                }
                out.push(row);
            }
        }
        j += 1;
    }
}

/// Follows a hop from every row.
pub fn expand<S: StorageBackend>(t: Table, hop: &Hop, storage: &S) -> (r: Table)
    requires
        storage.valid(),
    ensures
        r@ == expanded(t@, hop@, storage.store()),
{
    let mut cols = t.cols;
    add_opt_col(&mut cols, hop.rel);
    add_col(&mut cols, hop.dst.as_str());
    let mut out: Vec<Record> = Vec::new();
    let mut i: usize = 0;
    proof {
        assert(value::recs_view(out@) =~= seq![]);
    }
    while i < t.rows.len()
        invariant
            storage.valid(),
            i <= t.rows.len(),
            expand_rows(value::recs_view(t.rows@), 0, seq![], hop@, storage.store())
                == expand_rows(
                value::recs_view(t.rows@),
                i as int,
                value::recs_view(out@),
                hop@,
                storage.store(),
            ),
        decreases t.rows.len() - i,
    {
        if let Some(CypherValue::Node(n)) = t.rows[i].get(hop.src.as_str()) {
            expand_row(&t.rows[i], n.id, &mut out, hop, storage);
        }
        i += 1;
    }
    Table { cols, rows: out }
}

// ---------------------------------------------------------------------------
// Filters
// ---------------------------------------------------------------------------

/// The rows from the `i`-th on for which a predicate is true, behind those
/// that are kept already.
pub open spec fn filter_rows(
    rows: Seq<RecV>,
    i: int,
    acc: Seq<RecV>,
    e: ExprV,
    env: EnvV,
    st: StoreV,
) -> Result<Seq<RecV>, ErrV>
    decreases rows.len() - i,
{
    if i < 0 || i >= rows.len() {
        Ok(acc)
    } else {
        match semantics::eval(e, rows[i], env.at(i), st) {
            Err(x) => Err(x),
            Ok(v) => if ops::truthy(v) {
                filter_rows(rows, i + 1, acc.push(rows[i]), e, env, st)
            } else {
                filter_rows(rows, i + 1, acc, e, env, st)
            },
        }
    }
}

/// Keeps the rows for which a predicate is true.
pub fn keep_rows<S: StorageBackend, O: Outside>(
    rows: Vec<Record>,
    predicate: &Expression,
    ctx: &Ctx<O>,
    storage: &S,
) -> (r: Result<Vec<Record>, CypherError>)
    requires
        storage.valid(),
    ensures
        recs_outcome(r) == filter_rows(
            value::recs_view(rows@),
            0,
            seq![],
            predicate@,
            ctx.env(),
            storage.store(),
        ),
{
    let mut out: Vec<Record> = Vec::new();
    let mut i: usize = 0;
    proof {
        assert(value::recs_view(out@) =~= seq![]);
    }
    while i < rows.len()
        invariant
            storage.valid(),
            i <= rows.len(),
            filter_rows(
                value::recs_view(rows@),
                0,
                seq![],
                predicate@,
                ctx.env(),
                storage.store(),
            ) == filter_rows(
                value::recs_view(rows@),
                i as int,
                value::recs_view(out@),
                predicate@,
                ctx.env(),
                storage.store(),
            ),
        decreases rows.len() - i,
    {
        let v = eval_with_params(predicate, &rows[i], &ctx.at(i), storage)?;
        if is_truthy(&v) {
            let rec = rows[i].clone();
            proof {
                lemma_recs_push(out@, rec);
            }
            out.push(rec);
        }
        i += 1;
    }
    Ok(out)
}

// ---------------------------------------------------------------------------
// Projections
// ---------------------------------------------------------------------------

/// The name of the column for an expression without an alias.
pub open spec fn column_name(e: ExprV) -> Seq<char>
    decreases e,
{
    match e {
        ExprV::Variable(x) => x,
        ExprV::Property(b, p) => column_name(*b) + "."@ + p,
        ExprV::FunctionCall { name, distinct, args } => name + "(..)"@,
        _ => "?column?"@,
    }
}

pub fn expr_to_column_name(expr: &Expression) -> (r: String)
    ensures
        r@ == column_name(expr@),
    decreases expr,
{
    proof {
        assert(expr@ == expr.parts());
    }
    match expr {
        Expression::Variable(x) => x.clone(),
        Expression::Property(b, p) => join3(expr_to_column_name(b).as_str(), ".", p.as_str()),
        Expression::FunctionCall { name, distinct, args } => join2(name.as_str(), "(..)"),
        _ => "?column?".to_owned(),
    }
}

/// The columns of a projection.
pub open spec fn columns(items: Seq<ItemV>) -> Seq<Seq<char>> {
    Seq::new(
        items.len(),
        |i: int|
            match items[i].alias {
                Some(a) => a,
                None => column_name(items[i].expression),
            },
    )
}

pub fn item_columns(items: &Vec<ReturnItem>) -> (r: Vec<String>)
    ensures
        text::texts_view(r@) == columns(ast::items_view(items@)),
        r.len() == items.len(),
{
    let mut r: Vec<String> = Vec::new();
    let mut i: usize = 0;
    while i < items.len()
        invariant
            i <= items.len(),
            r.len() == i,
            forall|j: int|
                0 <= j < i ==> (#[trigger] r@[j])@ == columns(ast::items_view(items@))[j],
        decreases items.len() - i,
    {
        let name = match &items[i].alias {
            Some(a) => a.clone(),
            None => expr_to_column_name(&items[i].expression),
        };
        r.push(name);
        i += 1;
    }
    proof {
        assert(text::texts_view(r@) =~= columns(ast::items_view(items@)));
    }
    r
}

/// `RETURN *` stands for all columns.
pub open spec fn is_star(items: Seq<ItemV>) -> bool {
    items.len() == 1 && items[0].expression == ExprV::Variable("*"@)
}

pub open spec fn all_columns(cols: Seq<Seq<char>>) -> Seq<ItemV> {
    Seq::new(cols.len(), |i: int| ItemV { expression: ExprV::Variable(cols[i]), alias: None })
}

pub open spec fn effective_items(items: Seq<ItemV>, cols: Seq<Seq<char>>) -> Seq<ItemV> {
    if is_star(items) {
        all_columns(cols)
    } else {
        items
    }
}

pub fn resolve_items(items: &Vec<ReturnItem>, cols: &Vec<String>) -> (r: Vec<ReturnItem>)
    ensures
        ast::items_view(r@) == effective_items(ast::items_view(items@), text::texts_view(cols@)),
{
    let mut star = false;
    if items.len() == 1 {
        proof {
            assert(items@[0].expression@ == items@[0].expression.parts());
            assert(ast::items_view(items@)[0] == items@[0]@);
        }
        if let Expression::Variable(x) = &items[0].expression {
            star = same_text(x.as_str(), "*");
        }
    }
    if !star {
        return ast::clone_items(items);
    }
    let mut r: Vec<ReturnItem> = Vec::new();
    let mut i: usize = 0;
    while i < cols.len()
        invariant
            i <= cols.len(),
            r.len() == i,
            forall|j: int|
                0 <= j < i ==> (#[trigger] r@[j])@ == (ItemV {
                    expression: ExprV::Variable(cols@[j]@),
                    alias: None,
                }),
        decreases cols.len() - i,
    {
        let expression = Expression::Variable(cols[i].clone());
        proof {
            assert(expression@ == expression.parts());
        }
        r.push(ReturnItem { expression, alias: None });
        i += 1;
    }
    proof {
        assert(ast::items_view(r@) =~= all_columns(text::texts_view(cols@)));
    }
    r
}

/// A row of the columns from the `i`-th on.
pub open spec fn project_row(
    items: Seq<ItemV>,
    cols: Seq<Seq<char>>,
    i: int,
    acc: RecV,
    rec: RecV,
    env: EnvV,
    st: StoreV,
) -> Result<RecV, ErrV>
    decreases items.len() - i,
{
    if i < 0 || i >= items.len() {
        Ok(acc)
    } else {
        match semantics::eval(items[i].expression, rec, env.at(i), st) {
            Err(x) => Err(x),
            Ok(v) => project_row(items, cols, i + 1, assoc::bind(acc, cols[i], v), rec, env, st),
        }
    }
}

pub open spec fn project_rows(
    items: Seq<ItemV>,
    cols: Seq<Seq<char>>,
    rows: Seq<RecV>,
    i: int,
    acc: Seq<RecV>,
    env: EnvV,
    st: StoreV,
) -> Result<Seq<RecV>, ErrV>
    decreases rows.len() - i,
{
    if i < 0 || i >= rows.len() {
        Ok(acc)
    } else {
        match project_row(items, cols, 0, seq![], rows[i], env.at(i), st) {
            Err(x) => Err(x),
            Ok(r) => project_rows(items, cols, rows, i + 1, acc.push(r), env, st),
        }
    }
}

/// The rows that a projection gives, with repetitions or without.
pub open spec fn projected(
    items: Seq<ItemV>,
    distinct: bool,
    rows: Seq<RecV>,
    env: EnvV,
    st: StoreV,
) -> Result<TableV, ErrV> {
    let cols = columns(items);
    match (if aggregate::some_aggregate(items, 0) {
        aggregate::aggregation(items, rows, cols, env, st)
    } else {
        project_rows(items, cols, rows, 0, seq![], env, st)
    }) {
        Err(x) => Err(x),
        Ok(out) => Ok(
            TableV {
                cols,
                rows: if distinct {
                    keying::distinct_rows(out, cols, 0, seq![], seq![])
                } else {
                    out
                },
            },
        ),
    }
}

fn make_row<S: StorageBackend, O: Outside>(
    items: &Vec<ReturnItem>,
    cols: &Vec<String>,
    rec: &Record,
    ctx: &Ctx<O>,
    storage: &S,
) -> (r: Result<Record, CypherError>)
    requires
        storage.valid(),
        cols.len() == items.len(),
    ensures
        rec_outcome(r) == project_row(
            ast::items_view(items@),
            text::texts_view(cols@),
            0,
            seq![],
            rec@,
            ctx.env(),
            storage.store(),
        ),
{
    let mut out = Record::new();
    let mut i: usize = 0;
    while i < items.len()
        invariant
            storage.valid(),
            cols.len() == items.len(),
            i <= items.len(),
            project_row(
                ast::items_view(items@),
                text::texts_view(cols@),
                0,
                seq![],
                rec@,
                ctx.env(),
                storage.store(),
            ) == project_row(
                ast::items_view(items@),
                text::texts_view(cols@),
                i as int,
                out@,
                rec@,
                ctx.env(),
                storage.store(),
            ),
        decreases items.len() - i,
    {
        let v = eval_with_params(&items[i].expression, rec, &ctx.at(i), storage)?;
        out.insert(cols[i].clone(), v);
        i += 1;
    }
    Ok(out)
}

fn make_rows<S: StorageBackend, O: Outside>(
    items: &Vec<ReturnItem>,
    cols: &Vec<String>,
    rows: &Vec<Record>,
    ctx: &Ctx<O>,
    storage: &S,
) -> (r: Result<Vec<Record>, CypherError>)
    requires
        storage.valid(),
        cols.len() == items.len(),
    ensures
        recs_outcome(r) == project_rows(
            ast::items_view(items@),
            text::texts_view(cols@),
            value::recs_view(rows@),
            0,
            seq![],
            ctx.env(),
            storage.store(),
        ),
{
    let mut out: Vec<Record> = Vec::new();
    let mut i: usize = 0;
    proof {
        assert(value::recs_view(out@) =~= seq![]);
    }
    while i < rows.len()
        invariant
            storage.valid(),
            cols.len() == items.len(),
            i <= rows.len(),
            project_rows(
                ast::items_view(items@),
                text::texts_view(cols@),
                value::recs_view(rows@),
                0,
                seq![],
                ctx.env(),
                storage.store(),
            ) == project_rows(
                ast::items_view(items@),
                text::texts_view(cols@),
                value::recs_view(rows@),
                i as int,
                value::recs_view(out@),
                ctx.env(),
                storage.store(),
            ),
        decreases rows.len() - i,
    {
        let rec = make_row(items, cols, &rows[i], &ctx.at(i), storage)?;
        proof {
            lemma_recs_push(out@, rec);
        }
        out.push(rec);
        i += 1;
    }
    Ok(out)
}

/// Projects rows.
pub fn project<S: StorageBackend, O: Outside>(
    items: &Vec<ReturnItem>,
    distinct: bool,
    rows: &Vec<Record>,
    ctx: &Ctx<O>,
    storage: &S,
) -> (r: Result<Table, CypherError>)
    requires
        storage.valid(),
    ensures
        table_outcome(r) == projected(
            ast::items_view(items@),
            distinct,
            value::recs_view(rows@),
            ctx.env(),
            storage.store(),
        ),
{
    let cols = item_columns(items);
    let out = if items_contain_aggregation(items) {
        execute_aggregation(items, rows, &cols, ctx, storage)?
    } else {
        make_rows(items, &cols, rows, ctx, storage)?
    };
    let kept = if distinct {
        drop_repeated(out, &cols)
    } else {
        out
    };
    Ok(Table { cols, rows: kept })
}

// ---------------------------------------------------------------------------
// Sorting
// ---------------------------------------------------------------------------

/// The values by which a row is sorted, from the `i`-th on.
pub open spec fn sort_key(
    items: Seq<SortV>,
    i: int,
    acc: Seq<ValV>,
    rec: RecV,
    env: EnvV,
    st: StoreV,
) -> Result<Seq<ValV>, ErrV>
    decreases items.len() - i,
{
    if i < 0 || i >= items.len() {
        Ok(acc)
    } else {
        match semantics::eval(items[i].expression, rec, env.at(i), st) {
            Err(x) => Err(x),
            Ok(v) => sort_key(items, i + 1, acc.push(v), rec, env, st),
        }
    }
}

/// The rows from the `i`-th on, each with the values by which it is sorted.
pub open spec fn with_keys(
    items: Seq<SortV>,
    rows: Seq<RecV>,
    i: int,
    acc: Seq<(Seq<ValV>, RecV)>,
    env: EnvV,
    st: StoreV,
) -> Result<Seq<(Seq<ValV>, RecV)>, ErrV>
    decreases rows.len() - i,
{
    if i < 0 || i >= rows.len() {
        Ok(acc)
    } else {
        match sort_key(items, 0, seq![], rows[i], env.at(i), st) {
            Err(x) => Err(x),
            Ok(k) => with_keys(items, rows, i + 1, acc.push((k, rows[i])), env, st),
        }
    }
}

/// How two values compare as keys; values that cannot be compared are equal.
pub open spec fn key_order(item: SortV, a: ValV, b: ValV) -> Order {
    match ops::value_order(a, b) {
        Some(o) => if item.ascending {
            o
        } else {
            o.flipped()
        },
        None => Order::Equal,
    }
}

/// One key must come after another, by the items from the `i`-th on.
pub open spec fn keys_after(items: Seq<SortV>, i: int, a: Seq<ValV>, b: Seq<ValV>) -> bool
    decreases items.len() - i,
{
    if i < 0 || i >= items.len() {
        false
    } else {
        match key_order(items[i], a[i], b[i]) {
            Order::Greater => true,
            Order::Less => false,
            Order::Equal => keys_after(items, i + 1, a, b),
        }
    }
}

/// The order of rows with keys.
pub open spec fn row_after(items: Seq<SortV>) -> spec_fn((Seq<ValV>, RecV), (Seq<ValV>, RecV)) -> bool {
    |a: (Seq<ValV>, RecV), b: (Seq<ValV>, RecV)| keys_after(items, 0, a.0, b.0)
}

pub open spec fn without_keys(s: Seq<(Seq<ValV>, RecV)>) -> Seq<RecV> {
    Seq::new(s.len(), |i: int| s[i].1)
}

pub open spec fn sorted_rows(items: Seq<SortV>, rows: Seq<RecV>, env: EnvV, st: StoreV) -> Result<
    Seq<RecV>,
    ErrV,
> {
    match with_keys(items, rows, 0, seq![], env, st) {
        Err(x) => Err(x),
        Ok(s) => Ok(without_keys(arrange::arranged(s, row_after(items)))),
    }
}

/// A row with the values by which it is sorted.
struct Keyed {
    key: Vec<CypherValue>,
    rec: Record,
}

impl Keyed {
    spec fn view(&self) -> (Seq<ValV>, RecV) {
        (value::vals_view(self.key@), self.rec@)
    }
}

spec fn keyed_view(s: Seq<Keyed>) -> Seq<(Seq<ValV>, RecV)> {
    Seq::new(s.len(), |i: int| s[i].view())
}

/// Every key has one value for each item.
spec fn full_keys(s: Seq<(Seq<ValV>, RecV)>, n: nat) -> bool {
    forall|i: int| 0 <= i < s.len() ==> (#[trigger] s[i]).0.len() == n
}

proof fn lemma_sort_key_len(
    items: Seq<SortV>,
    i: int,
    acc: Seq<ValV>,
    rec: RecV,
    env: EnvV,
    st: StoreV,
)
    requires
        0 <= i <= items.len(),
        acc.len() == i,
    ensures
        sort_key(items, i, acc, rec, env, st) matches Ok(k) ==> k.len() == items.len(),
    decreases items.len() - i,
{
    if i < items.len() {
        match semantics::eval(items[i].expression, rec, env.at(i), st) {
            Err(x) => {},
            Ok(v) => {
                lemma_sort_key_len(items, i + 1, acc.push(v), rec, env, st);
            },
        }
    }
}

fn eval_sort_key<S: StorageBackend, O: Outside>(
    items: &Vec<SortItem>,
    rec: &Record,
    ctx: &Ctx<O>,
    storage: &S,
) -> (r: Result<Vec<CypherValue>, CypherError>)
    requires
        storage.valid(),
    ensures
        aggregate::values_outcome(r) == sort_key(
            ast::sorts_view(items@),
            0,
            seq![],
            rec@,
            ctx.env(),
            storage.store(),
        ),
        r matches Ok(k) ==> k.len() == items.len(),
{
    let mut vals: Vec<CypherValue> = Vec::new();
    let mut i: usize = 0;
    proof {
        assert(value::vals_view(vals@) =~= seq![]);
    }
    while i < items.len()
        invariant
            storage.valid(),
            i <= items.len(),
            vals.len() == i,
            sort_key(ast::sorts_view(items@), 0, seq![], rec@, ctx.env(), storage.store())
                == sort_key(
                ast::sorts_view(items@),
                i as int,
                value::vals_view(vals@),
                rec@,
                ctx.env(),
                storage.store(),
            ),
        decreases items.len() - i,
    {
        let v = eval_with_params(&items[i].expression, rec, &ctx.at(i), storage)?;
        proof {
            assert(value::vals_view(vals@.push(v)) =~= value::vals_view(vals@).push(v@));
        }
        vals.push(v);
        i += 1;
    }
    Ok(vals)
}

fn must_come_after(items: &Vec<SortItem>, a: &Vec<CypherValue>, b: &Vec<CypherValue>) -> (r: bool)
    requires
        a.len() == items.len(),
        b.len() == items.len(),
    ensures
        r == keys_after(
            ast::sorts_view(items@),
            0,
            value::vals_view(a@),
            value::vals_view(b@),
        ),
{
    let mut i: usize = 0;
    while i < items.len()
        invariant
            a.len() == items.len(),
            b.len() == items.len(),
            i <= items.len(),
            keys_after(
                ast::sorts_view(items@),
                0,
                value::vals_view(a@),
                value::vals_view(b@),
            ) == keys_after(
                ast::sorts_view(items@),
                i as int,
                value::vals_view(a@),
                value::vals_view(b@),
            ),
        decreases items.len() - i,
    {
        let o = match order_values(&a[i], &b[i]) {
            Some(o) => if items[i].ascending {
                o
            } else {
                o.flip()
            },
            None => Order::Equal,
        };
        match o {
            Order::Greater => {
                return true;
            },
            Order::Less => {
                return false;
            },
            Order::Equal => {},
        }
        i += 1;
    }
    false
}

/// Puts a row behind the last one that need not come after it.
fn place_row(sorted: &mut Vec<Keyed>, row: Keyed, items: &Vec<SortItem>)
    requires
        full_keys(keyed_view(old(sorted)@), items@.len()),
        row.key@.len() == items@.len(),
    ensures
        keyed_view(final(sorted)@) == arrange::placed(
            keyed_view(old(sorted)@),
            row.view(),
            row_after(ast::sorts_view(items@)),
        ),
        full_keys(keyed_view(final(sorted)@), items@.len()),
{
    let ghost after = row_after(ast::sorts_view(items@));
    let ghost s = keyed_view(sorted@);
    let mut p: usize = sorted.len();
    while p > 0
        invariant_except_break
            sorted@ == old(sorted)@,
            s == keyed_view(sorted@),
            after == row_after(ast::sorts_view(items@)),
            full_keys(s, items@.len()),
            row.key@.len() == items@.len(),
            p <= sorted.len(),
            forall|j: int| p <= j < s.len() ==> after(#[trigger] s[j], row.view()),
        ensures
            sorted@ == old(sorted)@,
            p <= sorted.len(),
            forall|j: int| p <= j < s.len() ==> after(#[trigger] s[j], row.view()),
            p == 0 || !after(s[p - 1], row.view()),
        decreases p,
    {
        proof {
            assert(s[p - 1].0.len() == items@.len());
        }
        if !must_come_after(items, &sorted[p - 1].key, &row.key) {
            break;
        }
        p -= 1;
    }
    proof {
        arrange::lemma_placed(s, row.view(), after, p as int);
        assert(keyed_view(sorted@.insert(p as int, row)) =~= s.insert(p as int, row.view()));
        assert forall|i: int|
            0 <= i < keyed_view(sorted@.insert(p as int, row)).len() implies (
        #[trigger] keyed_view(sorted@.insert(p as int, row))[i]).0.len() == items@.len() by {
            if i < p {
                assert(s[i].0.len() == items@.len());
            } else if i > p {
                assert(s[i - 1].0.len() == items@.len());
            }
        }
    }
    sorted.insert(p, row);
}

/// Sorts rows. Rows that compare as equal keep their order.
pub fn sort_rows<S: StorageBackend, O: Outside>(
    items: &Vec<SortItem>,
    rows: &Vec<Record>,
    ctx: &Ctx<O>,
    storage: &S,
) -> (r: Result<Vec<Record>, CypherError>)
    requires
        storage.valid(),
    ensures
        recs_outcome(r) == sorted_rows(
            ast::sorts_view(items@),
            value::recs_view(rows@),
            ctx.env(),
            storage.store(),
        ),
{
    let ghost sv = ast::sorts_view(items@);
    let ghost mut acc: Seq<(Seq<ValV>, RecV)> = seq![];
    let mut sorted: Vec<Keyed> = Vec::new();
    let mut i: usize = 0;
    proof {
        assert(keyed_view(sorted@) =~= seq![]);
    }
    while i < rows.len()
        invariant
            storage.valid(),
            sv == ast::sorts_view(items@),
            i <= rows.len(),
            full_keys(keyed_view(sorted@), items@.len()),
            keyed_view(sorted@) == arrange::arranged(acc, row_after(sv)),
            with_keys(sv, value::recs_view(rows@), 0, seq![], ctx.env(), storage.store())
                == with_keys(
                sv,
                value::recs_view(rows@),
                i as int,
                acc,
                ctx.env(),
                storage.store(),
            ),
        decreases rows.len() - i,
    {
        let key = eval_sort_key(items, &rows[i], &ctx.at(i), storage)?;
        let row = Keyed { key, rec: rows[i].clone() };
        proof {
            let before = acc;
            acc = acc.push(row.view());
            assert(acc.drop_last() =~= before);
        }
        place_row(&mut sorted, row, items);
        i += 1;
    }
    let mut out: Vec<Record> = Vec::new();
    let mut j: usize = 0;
    while j < sorted.len()
        invariant
            j <= sorted.len(),
            out.len() == j,
            forall|k: int| 0 <= k < j ==> (#[trigger] out@[k])@ == keyed_view(sorted@)[k].1,
        decreases sorted.len() - j,
    {
        out.push(sorted[j].rec.clone());
        j += 1;
    }
    proof {
        assert(value::recs_view(out@) =~= without_keys(keyed_view(sorted@)));
    }
    Ok(out)
}

// ---------------------------------------------------------------------------
// SKIP and LIMIT
// ---------------------------------------------------------------------------

/// The number of rows that SKIP or LIMIT names.
pub open spec fn row_count(clause: Seq<char>, e: ExprV, env: EnvV, st: StoreV) -> Result<i64, ErrV> {
    match semantics::eval(e, seq![], env, st) {
        Err(x) => Err(x),
        Ok(ValV::Integer(i)) => if i >= 0 {
            Ok(i)
        } else {
            Err(
                ErrV::Type(
                    clause + " requires a non-negative integer, got "@ + text::int_text(i as int),
                ),
            )
        },
        Ok(v) => Err(
            ErrV::Type(clause + " requires an integer expression, got "@ + value::value_kind(v)),
        ),
    }
}

pub fn eval_row_count<S: StorageBackend, O: Outside>(
    clause: &str,
    count: &Expression,
    ctx: &Ctx<O>,
    storage: &S,
) -> (r: Result<i64, CypherError>)
    requires
        storage.valid(),
    ensures
        match r {
            Ok(i) => row_count(clause@, count@, ctx.env(), storage.store()) == Ok::<i64, ErrV>(i)
                && i >= 0,
            Err(e) => row_count(clause@, count@, ctx.env(), storage.store()) == Err::<i64, ErrV>(
                e@,
            ),
        },
{
    let empty = Record::new();
    let v = eval_with_params(count, &empty, ctx, storage)?;
    match &v {
        CypherValue::Integer(i) => if *i >= 0 {
            Ok(*i)
        } else {
            Err(
                CypherError::TypeError(
                    join3(
                        clause,
                        " requires a non-negative integer, got ",
                        i64_text(*i).as_str(),
                    ),
                ),
            )
        },
        other => Err(
            CypherError::TypeError(
                join3(
                    clause,
                    " requires an integer expression, got ",
                    cypher_value_type_name(other),
                ),
            ),
        ),
    }
}

pub open spec fn least_of(a: int, b: int) -> int {
    if a < b {
        a
    } else {
        b
    }
}

/// The rows without the first `n`.
pub fn skip_rows(rows: &Vec<Record>, n: i64) -> (r: Vec<Record>)
    requires
        n >= 0,
    ensures
        value::recs_view(r@) == value::recs_view(rows@).skip(least_of(n as int, rows@.len() as int)),
{
    let from = if (n as u64) < rows.len() as u64 {
        n as usize
    } else {
        rows.len()
    };
    copy_rows(rows, from, rows.len())
}

/// The first `n` rows.
pub fn limit_rows(rows: &Vec<Record>, n: i64) -> (r: Vec<Record>)
    requires
        n >= 0,
    ensures
        value::recs_view(r@) == value::recs_view(rows@).take(least_of(n as int, rows@.len() as int)),
{
    let to = if (n as u64) < rows.len() as u64 {
        n as usize
    } else {
        rows.len()
    };
    copy_rows(rows, 0, to)
}

fn copy_rows(rows: &Vec<Record>, from: usize, to: usize) -> (r: Vec<Record>)
    requires
        from <= to <= rows.len(),
    ensures
        value::recs_view(r@) == value::recs_view(rows@).subrange(from as int, to as int),
        from == 0 ==> value::recs_view(r@) == value::recs_view(rows@).take(to as int),
        to == rows.len() ==> value::recs_view(r@) == value::recs_view(rows@).skip(from as int),
{
    let mut r: Vec<Record> = Vec::new();
    let mut i: usize = from;
    while i < to
        invariant
            from <= i <= to <= rows.len(),
            r.len() == i - from,
            forall|j: int| 0 <= j < r.len() ==> (#[trigger] r@[j])@ == rows@[from + j]@,
        decreases to - i,
    {
        r.push(rows[i].clone());
        i += 1;
    }
    proof {
        assert(value::recs_view(r@) =~= value::recs_view(rows@).subrange(from as int, to as int));
        if from == 0 {
            assert(value::recs_view(r@) =~= value::recs_view(rows@).take(to as int));
        }
        if to == rows.len() {
            assert(value::recs_view(r@) =~= value::recs_view(rows@).skip(from as int));
        }
    }
    r
}

// ---------------------------------------------------------------------------
// UNWIND
// ---------------------------------------------------------------------------

/// One row for each item.
pub open spec fn item_rows(rec: RecV, alias: Seq<char>, items: Seq<ValV>) -> Seq<RecV> {
    Seq::new(items.len(), |i: int| assoc::bind(rec, alias, items[i]))
}

/// The rows that the value of an UNWIND gives.
pub open spec fn unwound(rec: RecV, alias: Seq<char>, v: ValV) -> Result<Seq<RecV>, ErrV> {
    match v {
        ValV::List(items) => Ok(item_rows(rec, alias, items)),
        ValV::Null => Ok(seq![]),
        _ => Err(ErrV::Type("Type mismatch: expected List but was "@ + value::value_kind(v))),
    }
}

pub open spec fn unwind_rows(
    rows: Seq<RecV>,
    i: int,
    acc: Seq<RecV>,
    e: ExprV,
    alias: Seq<char>,
    env: EnvV,
    st: StoreV,
) -> Result<Seq<RecV>, ErrV>
    decreases rows.len() - i,
{
    if i < 0 || i >= rows.len() {
        Ok(acc)
    } else {
        match semantics::eval(e, rows[i], env.at(i), st) {
            Err(x) => Err(x),
            Ok(v) => match unwound(rows[i], alias, v) {
                Err(x) => Err(x),
                Ok(more) => unwind_rows(rows, i + 1, acc + more, e, alias, env, st),
            },
        }
    }
}

fn unwind_value(rec: &Record, alias: &str, v: &CypherValue) -> (r: Result<Vec<Record>, CypherError>)
    ensures
        recs_outcome(r) == unwound(rec@, alias@, v@),
{
    match v {
        CypherValue::List(items) => {
            let mut out: Vec<Record> = Vec::new();
            let mut i: usize = 0;
            while i < items.len()
                invariant
                    i <= items.len(),
                    out.len() == i,
                    forall|j: int|
                        0 <= j < i ==> (#[trigger] out@[j])@ == assoc::bind(
                            rec@,
                            alias@,
                            value::vals_view(items@)[j],
                        ),
                decreases items.len() - i,
            {
                out.push(rec.with(alias, items[i].clone()));
                i += 1;
            }
            proof {
                assert(value::recs_view(out@) =~= item_rows(
                    rec@,
                    alias@,
                    value::vals_view(items@),
                ));
            }
            Ok(out)
        },
        CypherValue::Null => {
            let out: Vec<Record> = Vec::new();
            proof {
                assert(value::recs_view(out@) =~= seq![]);
            }
            Ok(out)
        },
        other => Err(
            CypherError::TypeError(
                join2("Type mismatch: expected List but was ", cypher_value_type_name(other)),
            ),
        ),
    }
}

/// Puts rows behind others.
pub fn append_rows(out: &mut Vec<Record>, more: Vec<Record>)
    ensures
        value::recs_view(final(out)@) == value::recs_view(old(out)@) + value::recs_view(more@),
{
    let mut rest = more;
    let ghost a = out@;
    let ghost b = rest@;
    out.append(&mut rest);
    proof {
        assert(value::recs_view(out@) =~= value::recs_view(a) + value::recs_view(b));
    }
}

pub fn execute_unwind<S: StorageBackend, O: Outside>(
    t: Table,
    expression: &Expression,
    alias: &str,
    ctx: &Ctx<O>,
    storage: &S,
) -> (r: Result<Table, CypherError>)
    requires
        storage.valid(),
    ensures
        table_outcome(r) == (match unwind_rows(
            t@.rows,
            0,
            seq![],
            expression@,
            alias@,
            ctx.env(),
            storage.store(),
        ) {
            Err(x) => Err(x),
            Ok(rows) => Ok(TableV { cols: with_col(t@.cols, alias@), rows }),
        }),
{
    let mut cols = t.cols;
    add_col(&mut cols, alias);
    let mut out: Vec<Record> = Vec::new();
    let mut i: usize = 0;
    proof {
        assert(value::recs_view(out@) =~= seq![]);
    }
    while i < t.rows.len()
        invariant
            storage.valid(),
            i <= t.rows.len(),
            unwind_rows(
                value::recs_view(t.rows@),
                0,
                seq![],
                expression@,
                alias@,
                ctx.env(),
                storage.store(),
            ) == unwind_rows(
                value::recs_view(t.rows@),
                i as int,
                value::recs_view(out@),
                expression@,
                alias@,
                ctx.env(),
                storage.store(),
            ),
        decreases t.rows.len() - i,
    {
        let v = eval_with_params(expression, &t.rows[i], &ctx.at(i), storage)?;
        let more = unwind_value(&t.rows[i], alias, &v)?;
        append_rows(&mut out, more);
        i += 1;
    }
    Ok(Table { cols, rows: out })
}

} // verus!
