//! The execution of plans.
use crate::ast;
use crate::backend::StorageBackend;
use crate::deletes::{self, execute_delete};
use crate::error::{CypherError, ErrV};
use crate::eval::Ctx;
use crate::joins::{self, join_outer, multiply, unite};
use crate::keying::{self, column_values};
use crate::load::{self, execute_load_csv};
use crate::merges::{self, execute_merge};
use crate::outside::Outside;
use crate::paths::{self, execute_var_length_expand};
use crate::plan::{self, LogicalPlan, PlanV};
use crate::rows::{
    self, eval_row_count, execute_unwind, expand, keep_rows, limit_rows, project, resolve_items,
    scan_nodes, skip_rows, sort_rows, Hop, Table, TableV,
};
use crate::semantics::EnvV;
use crate::shortest::{self, execute_shortest_path};
use crate::store::StoreV;
use crate::text;
use crate::value::{self, CypherValue, Parameters, RecV, Record, ValV};
use crate::writes::{
    self, execute_create_constraint, execute_create_node, execute_create_path, execute_remove,
    execute_set, DoneV,
};
use vstd::prelude::*;

verus! {

// ---------------------------------------------------------------------------
// What plans mean
// ---------------------------------------------------------------------------

/// A table from its columns and its rows, unless these are an error.
pub open spec fn with_rows(cols: Seq<Seq<char>>, rows: Result<Seq<RecV>, ErrV>) -> Result<
    TableV,
    ErrV,
> {
    match rows {
        Ok(r) => Ok(TableV { cols, rows: r }),
        Err(x) => Err(x),
    }
}

/// What a plan without an input gives.
pub open spec fn source(p: PlanV, env: EnvV, st: StoreV) -> DoneV<TableV> {
    match p {
        PlanV::ScanNodes { label_filter, inline_props, variable } => (
            Ok(
                TableV {
                    cols: seq![variable],
                    rows: rows::node_rows(
                        rows::scanned(label_filter, inline_props, env, st),
                        variable,
                    ),
                },
            ),
            st,
        ),
        PlanV::CreateConstraint { label, properties, constraint_type } =>
            writes::constraint_created(label, properties, constraint_type, env.answers, st),
        _ => (Ok(TableV { cols: seq![], rows: seq![seq![]] }), st),
    }
}

/// The table that WITH makes of a table.
pub open spec fn with_table(
    items: Seq<ast::ItemV>,
    distinct: bool,
    predicate: Option<ast::ExprV>,
    t: TableV,
    env: EnvV,
    st: StoreV,
) -> Result<TableV, ErrV> {
    match rows::projected(items, distinct, t.rows, env.at(0), st) {
        Err(x) => Err(x),
        Ok(out) => match predicate {
            None => Ok(out),
            Some(e) => with_rows(
                out.cols,
                rows::filter_rows(out.rows, 0, seq![], e, env.at(1), st),
            ),
        },
    }
}

/// The table that a step which leaves the graph as it is makes of a table.
pub open spec fn read_step(p: PlanV, t: TableV, env: EnvV, st: StoreV) -> Result<TableV, ErrV> {
    match p {
        PlanV::Expand { hop, .. } => Ok(rows::expanded(t, hop, st)),
        PlanV::Filter { predicate, .. } => with_rows(
            t.cols,
            rows::filter_rows(t.rows, 0, seq![], predicate, env, st),
        ),
        PlanV::Return { items, distinct, .. } => rows::projected(
            rows::effective_items(items, t.cols),
            distinct,
            t.rows,
            env,
            st,
        ),
        PlanV::Sort { items, .. } => with_rows(t.cols, rows::sorted_rows(items, t.rows, env, st)),
        PlanV::Skip { count, .. } => match rows::row_count("SKIP"@, count, env, st) {
            Err(x) => Err(x),
            Ok(n) => Ok(
                TableV {
                    rows: t.rows.skip(rows::least_of(n as int, t.rows.len() as int)),
                    ..t
                },
            ),
        },
        PlanV::Limit { count, .. } => match rows::row_count("LIMIT"@, count, env, st) {
            Err(x) => Err(x),
            Ok(n) => Ok(
                TableV {
                    rows: t.rows.take(rows::least_of(n as int, t.rows.len() as int)),
                    ..t
                },
            ),
        },
        PlanV::With { items, distinct, where_predicate, .. } => with_table(
            items,
            distinct,
            where_predicate,
            t,
            env,
            st,
        ),
        PlanV::Unwind { expression, alias, .. } => with_rows(
            rows::with_col(t.cols, alias),
            rows::unwind_rows(t.rows, 0, seq![], expression, alias, env, st),
        ),
        PlanV::MandatoryGuard { .. } => if t.rows.len() == 0 {
            Err(ErrV::Runtime("MANDATORY MATCH pattern matched zero rows"@))
        } else {
            Ok(t)
        },
        PlanV::VarLengthExpand { hop, min_hops, max_hops, .. } => with_rows(
            rows::with_col(rows::with_opt_col(t.cols, hop.rel), hop.dst),
            paths::var_length_rows(t.rows, 0, seq![], hop, min_hops, max_hops, st),
        ),
        PlanV::LoadCsv { url, alias, with_headers, field_terminator, .. } => with_rows(
            rows::with_col(t.cols, alias),
            load::load_rows(
                t.rows,
                0,
                seq![],
                url,
                alias,
                with_headers,
                field_terminator,
                env,
                st,
            ),
        ),
        PlanV::ShortestPath { hop, path_variable, min_hops, max_hops, all_shortest, .. } =>
            with_rows(
            rows::with_opt_col(rows::with_col(t.cols, path_variable), hop.rel),
            shortest::shortest_rows(
                t.rows,
                0,
                seq![],
                path_variable,
                min_hops,
                max_hops,
                all_shortest,
                hop,
                st,
            ),
        ),
        _ => Ok(t),
    }
}

/// What a step makes of a table, and the graph after it.
#[verifier::opaque]
pub open spec fn step(p: PlanV, t: TableV, env: EnvV, st: StoreV) -> DoneV<TableV> {
    match p {
        PlanV::CreateNode { pattern, .. } => writes::created_nodes(t, pattern, env, st),
        PlanV::CreatePath { start, elements, .. } => writes::created_paths(
            t,
            start,
            elements,
            env,
            st,
        ),
        PlanV::SetOp { items, .. } => writes::set_table(t, items, env, st),
        PlanV::RemoveOp { items, .. } => {
            let (out, after) = writes::remove_table(t, items, st);
            (Ok(out), after)
        },
        PlanV::DeleteOp { expressions, detach, .. } => deletes::deleted(
            t,
            expressions,
            detach,
            env,
            st,
        ),
        PlanV::MergeOp { pattern, on_create, on_match, .. } => merges::merged(
            t,
            pattern,
            on_create,
            on_match,
            env,
            st,
        ),
        _ => (read_step(p, t, env, st), st),
    }
}

/// The table that a plan with two inputs makes of theirs.
pub open spec fn combined(p: PlanV, l: TableV, r: TableV) -> Result<TableV, ErrV> {
    match p {
        PlanV::CartesianProduct { .. } => Ok(joins::product(l, r)),
        PlanV::LeftOuterJoin { .. } => Ok(joins::outer_join(l, r)),
        PlanV::Union { all, .. } => joins::union(l, r, all),
        _ => Ok(l),
    }
}

/// What a plan gives on a graph, and the graph after it. The input of a plan
/// comes first; a step sees the graph as its input has left it.
pub open spec fn run(p: PlanV, env: EnvV, st: StoreV) -> DoneV<TableV>
    decreases plan::plan_size(p),
{
    proof {
        plan::lemma_plan_size(p);
    }
    match plan::input_of(p) {
        None => source(p, env, st),
        Some(q) => match run(*q, env.at(0), st) {
            (Err(x), after) => (Err(x), after),
            (Ok(t), after) => match plan::second_of(p) {
                None => step(p, t, env.at(1), after),
                Some(q2) => match run(*q2, env.at(1), after) {
                    (Err(x), end) => (Err(x), end),
                    (Ok(r), end) => (combined(p, t, r), end),
                },
            },
        },
    }
}

// ---------------------------------------------------------------------------
// Results
// ---------------------------------------------------------------------------

/// A row of a result: a value for each column.
#[derive(Debug)]
pub struct ResultRow {
    pub values: Vec<CypherValue>,
}

/// The result of a query.
#[derive(Debug)]
pub struct QueryResult {
    pub columns: Vec<String>,
    pub rows: Vec<ResultRow>,
}

/// The view of a `QueryResult`.
pub struct ResultV {
    pub columns: Seq<Seq<char>>,
    pub rows: Seq<Seq<ValV>>,
}

pub open spec fn rows_view(s: Seq<ResultRow>) -> Seq<Seq<ValV>> {
    Seq::new(s.len(), |i: int| value::vals_view(s[i].values@))
}

impl QueryResult {
    pub open spec fn view(&self) -> ResultV {
        ResultV { columns: text::texts_view(self.columns@), rows: rows_view(self.rows@) }
    }

    /// A result without columns and rows.
    pub fn empty() -> (r: Self)
        ensures
            r@ == (ResultV { columns: seq![], rows: seq![] }),
    {
        let r = QueryResult { columns: Vec::new(), rows: Vec::new() };
        proof {
            assert(r@.columns =~= Seq::<Seq<char>>::empty());
            assert(r@.rows =~= Seq::<Seq<ValV>>::empty());
        }
        r
    }
}

impl Clone for ResultRow {
    fn clone(&self) -> (r: Self)
        ensures
            value::vals_view(r.values@) == value::vals_view(self.values@),
    {
        ResultRow { values: value::clone_values(&self.values) }
    }
}

impl Clone for QueryResult {
    fn clone(&self) -> (r: Self)
        ensures
            r@ == self@,
    {
        let mut out: Vec<ResultRow> = Vec::new();
        let mut i: usize = 0;
        while i < self.rows.len()
            invariant
                i <= self.rows.len(),
                out@.len() == i,
                forall|j: int|
                    0 <= j < i ==> value::vals_view((#[trigger] out@[j]).values@)
                        == value::vals_view(self.rows@[j].values@),
            decreases self.rows.len() - i,
        {
            out.push(self.rows[i].clone());
            i += 1;
        }
        proof {
            assert(rows_view(out@) =~= rows_view(self.rows@));
        }
        QueryResult { columns: text::clone_texts(&self.columns), rows: out }
    }
}

/// The result that a table is: for each row the values of the columns, null
/// where there is none.
pub open spec fn result_of(t: TableV) -> ResultV {
    ResultV {
        columns: t.cols,
        rows: Seq::new(t.rows.len(), |i: int| keying::columns_of(t.rows[i], t.cols)),
    }
}

pub fn records_to_query_result(t: Table) -> (r: QueryResult)
    ensures
        r@ == result_of(t@),
{
    let mut out: Vec<ResultRow> = Vec::new();
    let mut i: usize = 0;
    while i < t.rows.len()
        invariant
            i <= t.rows.len(),
            out@.len() == i,
            forall|j: int|
                0 <= j < i ==> value::vals_view((#[trigger] out@[j]).values@)
                    == keying::columns_of(t.rows@[j]@, text::texts_view(t.cols@)),
        decreases t.rows.len() - i,
    {
        out.push(ResultRow { values: column_values(&t.rows[i], &t.cols) });
        i += 1;
    }
    let r = QueryResult { columns: t.cols, rows: out };
    proof {
        assert(r@.rows =~= result_of(t@).rows);
    }
    r
}

/// The result that a run gives, and the graph after it.
pub open spec fn answered(d: DoneV<TableV>) -> DoneV<ResultV> {
    match d {
        (Ok(t), after) => (Ok(result_of(t)), after),
        (Err(x), after) => (Err(x), after),
    }
}

/// The view of a result or an error, beside a graph.
pub open spec fn result_done(r: Result<QueryResult, CypherError>, st: StoreV) -> DoneV<ResultV> {
    match r {
        Ok(q) => (Ok(q@), st),
        Err(e) => (Err(e@), st),
    }
}

// ---------------------------------------------------------------------------
// Running plans
// ---------------------------------------------------------------------------

/// The input of a plan; the left one of two.
fn input_plan(p: &LogicalPlan) -> (r: Option<&LogicalPlan>)
    ensures
        match r {
            Some(q) => plan::input_of(p@) == Some(Box::new(q@)),
            None => plan::input_of(p@) is None,
        },
{
    proof {
        assert(p@ == p.parts());
    }
    match p {
        LogicalPlan::CreateNode { input, .. } => Some(&**input),
        LogicalPlan::CreatePath { input, .. } => Some(&**input),
        LogicalPlan::ScanNodes { .. } => None,
        LogicalPlan::Expand { input, .. } => Some(&**input),
        LogicalPlan::Filter { input, .. } => Some(&**input),
        LogicalPlan::Return { input, .. } => Some(&**input),
        LogicalPlan::Sort { input, .. } => Some(&**input),
        LogicalPlan::Skip { input, .. } => Some(&**input),
        LogicalPlan::Limit { input, .. } => Some(&**input),
        LogicalPlan::EmptyRow => None,
        LogicalPlan::With { input, .. } => Some(&**input),
        LogicalPlan::Unwind { input, .. } => Some(&**input),
        LogicalPlan::SetOp { input, .. } => Some(&**input),
        LogicalPlan::RemoveOp { input, .. } => Some(&**input),
        LogicalPlan::DeleteOp { input, .. } => Some(&**input),
        LogicalPlan::MergeOp { input, .. } => Some(&**input),
        LogicalPlan::CartesianProduct { left, .. } => Some(&**left),
        LogicalPlan::LeftOuterJoin { left, .. } => Some(&**left),
        LogicalPlan::MandatoryGuard { input } => Some(&**input),
        LogicalPlan::VarLengthExpand { input, .. } => Some(&**input),
        LogicalPlan::LoadCsv { input, .. } => Some(&**input),
        LogicalPlan::Union { left, .. } => Some(&**left),
        LogicalPlan::CreateConstraint { .. } => None,
        LogicalPlan::ShortestPath { input, .. } => Some(&**input),
    }
}

/// The right one of two inputs of a plan.
fn second_plan(p: &LogicalPlan) -> (r: Option<&LogicalPlan>)
    ensures
        match r {
            Some(q) => plan::second_of(p@) == Some(Box::new(q@)),
            None => plan::second_of(p@) is None,
        },
{
    proof {
        assert(p@ == p.parts());
    }
    match p {
        LogicalPlan::CartesianProduct { right, .. } => Some(&**right),
        LogicalPlan::LeftOuterJoin { right, .. } => Some(&**right),
        LogicalPlan::Union { right, .. } => Some(&**right),
        _ => None,
    }
}

fn run_source<S: StorageBackend, O: Outside>(p: &LogicalPlan, ctx: &Ctx<O>, storage: &mut S) -> (r:
    Result<Table, CypherError>)
    requires
        old(storage).valid(),
    ensures
        final(storage).valid(),
        writes::table_done(r, final(storage).store()) == source(
            p@,
            ctx.env(),
            old(storage).store(),
        ),
{
    proof {
        assert(p@ == p.parts());
    }
    match p {
        LogicalPlan::ScanNodes { label_filter, inline_props, variable } => Ok(
            scan_nodes(label_filter, inline_props, variable.as_str(), ctx, storage),
        ),
        LogicalPlan::CreateConstraint { label, properties, constraint_type } =>
            execute_create_constraint(
            label.as_str(),
            properties,
            *constraint_type,
            ctx.outside,
            storage,
        ),
        _ => {
            let mut one: Vec<Record> = Vec::new();
            one.push(Record::new());
            let t = Table { cols: Vec::new(), rows: one };
            proof {
                assert(t@.cols =~= Seq::<Seq<char>>::empty());
                assert(t@.rows =~= seq![seq![]]);
            }
            Ok(t)
        },
    }
}

fn run_with<S: StorageBackend, O: Outside>(
    items: &Vec<ast::ReturnItem>,
    distinct: bool,
    predicate: &Option<ast::Expression>,
    t: Table,
    ctx: &Ctx<O>,
    storage: &S,
) -> (r: Result<Table, CypherError>)
    requires
        storage.valid(),
    ensures
        rows::table_outcome(r) == with_table(
            ast::items_view(items@),
            distinct,
            ast::maybe_expr(*predicate),
            t@,
            ctx.env(),
            storage.store(),
        ),
{
    let out = project(items, distinct, &t.rows, &ctx.at(0), storage)?;
    match predicate {
        None => Ok(out),
        Some(e) => {
            let kept = keep_rows(out.rows, e, &ctx.at(1), storage)?;
            Ok(Table { cols: out.cols, rows: kept })
        },
    }
}

fn run_walk_step<S: StorageBackend, O: Outside>(
    p: &LogicalPlan,
    t: Table,
    ctx: &Ctx<O>,
    storage: &S,
) -> (r: Result<Table, CypherError>)
    requires
        storage.valid(),
        p is Expand || p is VarLengthExpand || p is ShortestPath || p is LoadCsv || p is Unwind,
    ensures
        rows::table_outcome(r) == read_step(p@, t@, ctx.env(), storage.store()),
{
    proof {
        assert(p@ == p.parts());
    }
    match p {
        LogicalPlan::Expand {
            src_variable,
            rel_variable,
            dst_variable,
            rel_types,
            direction,
            ..
        } => {
            let hop = Hop {
                src: src_variable,
                rel: rel_variable,
                dst: dst_variable,
                types: rel_types,
                direction: *direction,
            };
            Ok(expand(t, &hop, storage))
        },
        LogicalPlan::VarLengthExpand {
            src_variable,
            rel_variable,
            dst_variable,
            rel_types,
            direction,
            min_hops,
            max_hops,
            ..
        } => {
            let hop = Hop {
                src: src_variable,
                rel: rel_variable,
                dst: dst_variable,
                types: rel_types,
                direction: *direction,
            };
            execute_var_length_expand(t, &hop, *min_hops, *max_hops, storage)
        },
        LogicalPlan::ShortestPath {
            src_variable,
            dst_variable,
            rel_variable,
            path_variable,
            rel_types,
            direction,
            min_hops,
            max_hops,
            all_shortest,
            ..
        } => {
            let hop = Hop {
                src: src_variable,
                rel: rel_variable,
                dst: dst_variable,
                types: rel_types,
                direction: *direction,
            };
            execute_shortest_path(
                t,
                path_variable.as_str(),
                *min_hops,
                *max_hops,
                *all_shortest,
                &hop,
                storage,
            )
        },
        LogicalPlan::LoadCsv { url, alias, with_headers, field_terminator, .. } =>
            execute_load_csv(
            t,
            url,
            alias.as_str(),
            *with_headers,
            field_terminator,
            ctx,
            storage,
        ),
        LogicalPlan::Unwind { expression, alias, .. } => execute_unwind(
            t,
            expression,
            alias.as_str(),
            ctx,
            storage,
        ),
        _ => Ok(t),
    }
}

fn run_read_step<S: StorageBackend, O: Outside>(
    p: &LogicalPlan,
    t: Table,
    ctx: &Ctx<O>,
    storage: &S,
) -> (r: Result<Table, CypherError>)
    requires
        storage.valid(),
        plan::second_of(p@) is None,
    ensures
        rows::table_outcome(r) == read_step(p@, t@, ctx.env(), storage.store()),
{
    proof {
        assert(p@ == p.parts());
    }
    match p {
        LogicalPlan::Filter { predicate, .. } => {
            let kept = keep_rows(t.rows, predicate, ctx, storage)?;
            Ok(Table { cols: t.cols, rows: kept })
        },
        LogicalPlan::Return { items, distinct, .. } => {
            let resolved = resolve_items(items, &t.cols);
            project(&resolved, *distinct, &t.rows, ctx, storage)
        },
        LogicalPlan::Sort { items, .. } => {
            let sorted = sort_rows(items, &t.rows, ctx, storage)?;
            Ok(Table { cols: t.cols, rows: sorted })
        },
        LogicalPlan::Skip { count, .. } => {
            let n = eval_row_count("SKIP", count, ctx, storage)?;
            let rest = skip_rows(&t.rows, n);
            Ok(Table { cols: t.cols, rows: rest })
        },
        LogicalPlan::Limit { count, .. } => {
            let n = eval_row_count("LIMIT", count, ctx, storage)?;
            let first = limit_rows(&t.rows, n);
            Ok(Table { cols: t.cols, rows: first })
        },
        LogicalPlan::With { items, distinct, where_predicate, .. } => run_with(
            items,
            *distinct,
            where_predicate,
            t,
            ctx,
            storage,
        ),
        LogicalPlan::MandatoryGuard { .. } => if t.rows.len() == 0 {
            Err(
                CypherError::RuntimeError(
                    "MANDATORY MATCH pattern matched zero rows".to_owned(),
                ),
            )
        } else {
            Ok(t)
        },
        LogicalPlan::Expand { .. } => run_walk_step(p, t, ctx, storage),
        LogicalPlan::VarLengthExpand { .. } => run_walk_step(p, t, ctx, storage),
        LogicalPlan::ShortestPath { .. } => run_walk_step(p, t, ctx, storage),
        LogicalPlan::LoadCsv { .. } => run_walk_step(p, t, ctx, storage),
        LogicalPlan::Unwind { .. } => run_walk_step(p, t, ctx, storage),
        _ => Ok(t),
    }
}

fn run_step<S: StorageBackend, O: Outside>(
    p: &LogicalPlan,
    t: Table,
    ctx: &Ctx<O>,
    storage: &mut S,
) -> (r: Result<Table, CypherError>)
    requires
        old(storage).valid(),
        plan::second_of(p@) is None,
    ensures
        final(storage).valid(),
        writes::table_done(r, final(storage).store()) == step(
            p@,
            t@,
            ctx.env(),
            old(storage).store(),
        ),
{
    proof {
        reveal(step);
        assert(p@ == p.parts());
    }
    match p {
        LogicalPlan::CreateNode { pattern, .. } => execute_create_node(t, pattern, ctx, storage),
        LogicalPlan::CreatePath { start, elements, .. } => execute_create_path(
            t,
            start,
            elements,
            ctx,
            storage,
        ),
        LogicalPlan::SetOp { items, .. } => execute_set(t, items, ctx, storage),
        LogicalPlan::RemoveOp { items, .. } => Ok(execute_remove(t, items, storage)),
        LogicalPlan::DeleteOp { expressions, detach, .. } => execute_delete(
            t,
            expressions,
            *detach,
            ctx,
            storage,
        ),
        LogicalPlan::MergeOp { pattern, on_create, on_match, .. } => execute_merge(
            t,
            pattern,
            on_create,
            on_match,
            ctx,
            storage,
        ),
        _ => run_read_step(p, t, ctx, storage),
    }
}

fn combine(p: &LogicalPlan, l: Table, r: &Table) -> (t: Result<Table, CypherError>)
    ensures
        rows::table_outcome(t) == combined(p@, l@, r@),
{
    proof {
        assert(p@ == p.parts());
    }
    match p {
        LogicalPlan::CartesianProduct { .. } => Ok(multiply(l, r)),
        LogicalPlan::LeftOuterJoin { .. } => Ok(join_outer(l, r)),
        LogicalPlan::Union { all, .. } => unite(l, r, *all),
        _ => Ok(l),
    }
}

/// The views of plans.
spec fn plans_view(s: Seq<&LogicalPlan>) -> Seq<PlanV> {
    Seq::new(s.len(), |i: int| s[i]@)
}

spec fn envs_view<O: Outside>(s: Seq<Ctx<O>>) -> Seq<EnvV> {
    Seq::new(s.len(), |i: int| s[i].env())
}

/// Each plan is the input of the one before it.
spec fn is_spine(plans: Seq<PlanV>, envs: Seq<EnvV>) -> bool {
    &&& plans.len() == envs.len()
    &&& forall|k: int|
        #![trigger plans[k]]
        0 < k < plans.len() ==> plan::input_of(plans[k - 1]) == Some(Box::new(plans[k]))
            && envs[k] == envs[k - 1].at(0)
}

/// The plans along a chain of inputs have ever fewer steps.
proof fn lemma_spine_size(plans: Seq<PlanV>, envs: Seq<EnvV>, k: int)
    requires
        is_spine(plans, envs),
        0 <= k < plans.len(),
    ensures
        plan::plan_size(plans[k]) <= plan::plan_size(plans[0]),
    decreases k,
{
    if k > 0 {
        lemma_spine_size(plans, envs, k - 1);
        plan::lemma_plan_size(plans[k - 1]);
    }
}

/// An error of an input is the error of the whole plan.
proof fn lemma_failed(plans: Seq<PlanV>, envs: Seq<EnvV>, k: int, st: StoreV)
    requires
        is_spine(plans, envs),
        0 <= k < plans.len(),
        run(plans[k], envs[k], st).0 is Err,
    ensures
        run(plans[0], envs[0], st) == run(plans[k], envs[k], st),
    decreases k,
{
    if k > 0 {
        assert(run(plans[k - 1], envs[k - 1], st) == run(plans[k], envs[k], st));
        lemma_failed(plans, envs, k - 1, st);
    }
}

/// Runs a plan: first the innermost input, then every step outwards.
pub fn execute_to_records<S: StorageBackend, O: Outside>(
    p: &LogicalPlan,
    ctx: &Ctx<O>,
    storage: &mut S,
) -> (r: Result<Table, CypherError>)
    requires
        old(storage).valid(),
    ensures
        final(storage).valid(),
        writes::table_done(r, final(storage).store()) == run(
            p@,
            ctx.env(),
            old(storage).store(),
        ),
    decreases plan::plan_size(p@),
{
    let ghost st0 = storage.store();
    let mut spine: Vec<&LogicalPlan> = Vec::new();
    let mut ctxs: Vec<Ctx<O>> = Vec::new();
    spine.push(p);
    ctxs.push(
        Ctx {
            params: ctx.params,
            outside: ctx.outside,
            seed: ctx.seed,
            group: ctx.group,
        },
    );
    let mut next = input_plan(p);
    while next.is_some()
        invariant
            spine.len() > 0,
            spine@[0]@ == p@,
            ctxs@[0].env() == ctx.env(),
            is_spine(plans_view(spine@), envs_view(ctxs@)),
            match next {
                Some(q) => plan::input_of(spine@.last()@) == Some(Box::new(q@)),
                None => plan::input_of(spine@.last()@) is None,
            },
        decreases
            (match next {
                Some(q) => plan::plan_size(q@) + 1,
                None => 0,
            }),
    {
        let q = next.unwrap();
        let deeper = ctxs[ctxs.len() - 1].at(0);
        let ghost old_plans = plans_view(spine@);
        let ghost old_envs = envs_view(ctxs@);
        spine.push(q);
        ctxs.push(deeper);
        proof {
            assert(plans_view(spine@) =~= old_plans.push(q@));
            assert(envs_view(ctxs@) =~= old_envs.push(deeper.env()));
            plan::lemma_plan_size(q@);
        }
        next = input_plan(q);
    }
    let ghost plans = plans_view(spine@);
    let ghost envs = envs_view(ctxs@);
    let mut k: usize = spine.len() - 1;
    let mut t = match run_source(spine[k], &ctxs[k], storage) {
        Ok(t) => t,
        Err(e) => {
            proof {
                lemma_failed(plans, envs, k as int, st0);
            }
            return Err(e);
        },
    };
    while k > 0
        invariant
            storage.valid(),
            st0 == old(storage).store(),
            plans == plans_view(spine@),
            envs == envs_view(ctxs@),
            is_spine(plans, envs),
            k < spine.len(),
            plans[0] == p@,
            envs[0] == ctx.env(),
            run(plans[k as int], envs[k as int], st0) == (
                Ok::<TableV, ErrV>(t@),
                storage.store(),
            ),
        decreases k,
    {
        let above = spine[k - 1];
        proof {
            assert(plans[k as int - 1] == above@);
            assert(envs[k as int] == envs[k as int - 1].at(0));
            lemma_spine_size(plans, envs, k as int - 1);
            plan::lemma_plan_size(above@);
        }
        let here = ctxs[k - 1].at(1);
        let done = match second_plan(above) {
            None => run_step(above, t, &here, storage),
            Some(q) => match execute_to_records(q, &here, storage) {
                Err(e) => Err(e),
                Ok(right) => combine(above, t, &right),
            },
        };
        proof {
            assert(writes::table_done(done, storage.store()) == run(
                plans[k as int - 1],
                envs[k as int - 1],
                st0,
            ));
        }
        match done {
            Ok(out) => {
                t = out;
            },
            Err(e) => {
                proof {
                    lemma_failed(plans, envs, k as int - 1, st0);
                }
                return Err(e);
            },
        }
        k -= 1;
    }
    Ok(t)
}

/// Runs a plan with parameters.
pub fn execute_with_params<S: StorageBackend, O: Outside>(
    p: &LogicalPlan,
    storage: &mut S,
    params: &Parameters,
    outside: &O,
    seed: u64,
) -> (r: Result<QueryResult, CypherError>)
    requires
        old(storage).valid(),
    ensures
        final(storage).valid(),
        result_done(r, final(storage).store()) == answered(
            run(
                p@,
                (EnvV { params: params@, answers: outside.answers(), seed, group: None }),
                old(storage).store(),
            ),
        ),
{
    let ctx = Ctx { params, outside, seed, group: None };
    let t = execute_to_records(p, &ctx, storage)?;
    Ok(records_to_query_result(t))
}

/// Runs a plan without parameters.
pub fn execute<S: StorageBackend, O: Outside>(
    p: &LogicalPlan,
    storage: &mut S,
    outside: &O,
    seed: u64,
) -> (r: Result<QueryResult, CypherError>)
    requires
        old(storage).valid(),
    ensures
        final(storage).valid(),
        result_done(r, final(storage).store()) == answered(
            run(
                p@,
                (EnvV { params: seq![], answers: outside.answers(), seed, group: None }),
                old(storage).store(),
            ),
        ),
{
    let params = Parameters::new();
    execute_with_params(p, storage, &params, outside, seed)
}

} // verus!
