//! DELETE.
use crate::ast::{self, Expression, ExprV};
use crate::backend::StorageBackend;
use crate::error::{CypherError, ErrV};
use crate::eval::{eval_with_params, Ctx};
use crate::outside::Outside;
use crate::rows::{self, Table, TableV};
use crate::semantics::{self, EnvV};
use crate::store::{self, StoreV};
use crate::value::{self, CypherValue, EdgeId, NodeId, RecV, Record, ValV, ValueMap};
use crate::writes::{self, DoneV};
use vstd::prelude::*;

verus! {

/// The identifiers of what is to be deleted, each once.
pub struct DoomedV {
    pub nodes: Seq<u64>,
    pub edges: Seq<u64>,
}

pub struct Doomed {
    pub nodes: Vec<NodeId>,
    pub edges: Vec<EdgeId>,
}

impl Doomed {
    pub open spec fn view(&self) -> DoomedV {
        DoomedV { nodes: self.nodes@, edges: self.edges@ }
    }
}

/// Identifiers with one more, if it is not there yet.
pub open spec fn with_id(ids: Seq<u64>, id: u64) -> Seq<u64> {
    if ids.contains(id) {
        ids
    } else {
        ids.push(id)
    }
}

/// What is to be deleted, with a value.
pub open spec fn with_doomed(d: DoomedV, v: ValV) -> DoomedV {
    match v {
        ValV::Node(n) => DoomedV { nodes: with_id(d.nodes, n.id), ..d },
        ValV::Relationship(e) => DoomedV { edges: with_id(d.edges, e.id), ..d },
        _ => d,
    }
}

/// What is to be deleted for a row, from the `i`-th expression on.
pub open spec fn doomed_in(
    exprs: Seq<ExprV>,
    i: int,
    rec: RecV,
    d: DoomedV,
    env: EnvV,
    st: StoreV,
) -> Result<DoomedV, ErrV>
    decreases exprs.len() - i,
{
    if i < 0 || i >= exprs.len() {
        Ok(d)
    } else {
        match semantics::eval(exprs[i], rec, env.at(i), st) {
            Err(x) => Err(x),
            Ok(v) => doomed_in(exprs, i + 1, rec, with_doomed(d, v), env, st),
        }
    }
}

/// What is to be deleted, from the `i`-th row on.
pub open spec fn doomed(
    rows: Seq<RecV>,
    i: int,
    exprs: Seq<ExprV>,
    d: DoomedV,
    env: EnvV,
    st: StoreV,
) -> Result<DoomedV, ErrV>
    decreases rows.len() - i,
{
    if i < 0 || i >= rows.len() {
        Ok(d)
    } else {
        match doomed_in(exprs, 0, rows[i], d, env.at(i), st) {
            Err(x) => Err(x),
            Ok(e) => doomed(rows, i + 1, exprs, e, env, st),
        }
    }
}

/// The graph without the relationships from the `i`-th on.
pub open spec fn without_edges(ids: Seq<u64>, i: int, st: StoreV) -> DoneV<()>
    decreases ids.len() - i,
{
    if i < 0 || i >= ids.len() {
        (Ok(()), st)
    } else if store::edge_at(st, ids[i]) is None {
        (Err(ErrV::Runtime(store::edge_missing(ids[i]))), st)
    } else {
        without_edges(ids, i + 1, store::edge_deleted(st, ids[i]))
    }
}

/// The graph without the nodes from the `i`-th on.
pub open spec fn without_nodes(ids: Seq<u64>, i: int, detach: bool, st: StoreV) -> DoneV<()>
    decreases ids.len() - i,
{
    if i < 0 || i >= ids.len() {
        (Ok(()), st)
    } else {
        match store::delete_refusal(st, ids[i], detach) {
            Some(m) => (Err(ErrV::Runtime(m)), st),
            None => without_nodes(ids, i + 1, detach, store::node_deleted(st, ids[i])),
        }
    }
}

/// A value is no deleted node or relationship.
pub open spec fn survives(v: ValV, d: DoomedV) -> bool {
    match v {
        ValV::Node(n) => !d.nodes.contains(n.id),
        ValV::Relationship(e) => !d.edges.contains(e.id),
        _ => true,
    }
}

/// The bindings of a row from the `i`-th on that survive.
pub open spec fn surviving(rec: RecV, i: int, acc: RecV, d: DoomedV) -> RecV
    decreases rec.len() - i,
{
    if i < 0 || i >= rec.len() {
        acc
    } else {
        surviving(
            rec,
            i + 1,
            if survives(rec[i].1, d) {
                acc.push(rec[i])
            } else {
                acc
            },
            d,
        )
    }
}

/// A table after DELETE: relationships are deleted first, then nodes, and the
/// rows lose the bindings of what was deleted.
pub open spec fn deleted(
    t: TableV,
    exprs: Seq<ExprV>,
    detach: bool,
    env: EnvV,
    st: StoreV,
) -> DoneV<TableV> {
    match doomed(t.rows, 0, exprs, DoomedV { nodes: seq![], edges: seq![] }, env, st) {
        Err(x) => (Err(x), st),
        Ok(d) => match without_edges(d.edges, 0, st) {
            (Err(x), after) => (Err(x), after),
            (Ok(_), st1) => match without_nodes(d.nodes, 0, detach, st1) {
                (Err(x), after) => (Err(x), after),
                (Ok(_), st2) => (
                    Ok(
                        TableV {
                            rows: Seq::new(
                                t.rows.len(),
                                |i: int| surviving(t.rows[i], 0, seq![], d),
                            ),
                            ..t
                        },
                    ),
                    st2,
                ),
            },
        },
    }
}

fn has_id(ids: &Vec<u64>, id: u64) -> (r: bool)
    ensures
        r == ids@.contains(id),
{
    let mut i: usize = 0;
    while i < ids.len()
        invariant
            i <= ids.len(),
            forall|j: int| 0 <= j < i ==> ids@[j] != id,
        decreases ids.len() - i,
    {
        if ids[i] == id {
            return true;
        }
        i += 1;
    }
    false
}

fn add_id(ids: &mut Vec<u64>, id: u64)
    ensures
        final(ids)@ == with_id(old(ids)@, id),
{
    if !has_id(ids, id) {
        ids.push(id);
    }
}

fn collect_doomed_in_row<S: StorageBackend, O: Outside>(
    exprs: &Vec<Expression>,
    rec: &Record,
    d: &mut Doomed,
    ctx: &Ctx<O>,
    storage: &S,
) -> (r: Result<(), CypherError>)
    requires
        storage.valid(),
    ensures
        match r {
            Ok(_) => doomed_in(
                ast::exprs_view(exprs@),
                0,
                rec@,
                old(d)@,
                ctx.env(),
                storage.store(),
            ) == Ok::<DoomedV, ErrV>(final(d)@),
            Err(e) => doomed_in(
                ast::exprs_view(exprs@),
                0,
                rec@,
                old(d)@,
                ctx.env(),
                storage.store(),
            ) == Err::<DoomedV, ErrV>(e@),
        },
{
    let ghost want = doomed_in(
        ast::exprs_view(exprs@),
        0,
        rec@,
        d@,
        ctx.env(),
        storage.store(),
    );
    let mut i: usize = 0;
    while i < exprs.len()
        invariant
            storage.valid(),
            i <= exprs.len(),
            want == doomed_in(
                ast::exprs_view(exprs@),
                0,
                rec@,
                old(d)@,
                ctx.env(),
                storage.store(),
            ),
            want == doomed_in(
                ast::exprs_view(exprs@),
                i as int,
                rec@,
                d@,
                ctx.env(),
                storage.store(),
            ),
        decreases exprs.len() - i,
    {
        let v = eval_with_params(&exprs[i], rec, &ctx.at(i), storage)?;
        match &v {
            CypherValue::Node(n) => add_id(&mut d.nodes, n.id),
            CypherValue::Relationship(e) => add_id(&mut d.edges, e.id),
            _ => {},
        }
        i += 1;
    }
    Ok(())
}

/// The view of what is to be deleted, or an error.
pub open spec fn doomed_outcome(r: Result<Doomed, CypherError>) -> Result<DoomedV, ErrV> {
    match r {
        Ok(d) => Ok(d@),
        Err(e) => Err(e@),
    }
}

fn collect_doomed<S: StorageBackend, O: Outside>(
    rows: &Vec<Record>,
    exprs: &Vec<Expression>,
    ctx: &Ctx<O>,
    storage: &S,
) -> (r: Result<Doomed, CypherError>)
    requires
        storage.valid(),
    ensures
        doomed_outcome(r) == doomed(
            value::recs_view(rows@),
            0,
            ast::exprs_view(exprs@),
            DoomedV { nodes: seq![], edges: seq![] },
            ctx.env(),
            storage.store(),
        ),
{
    let mut d = Doomed { nodes: Vec::new(), edges: Vec::new() };
    let ghost first = d@;
    proof {
        assert(first == DoomedV { nodes: seq![], edges: seq![] });
    }
    let mut i: usize = 0;
    while i < rows.len()
        invariant
            storage.valid(),
            i <= rows.len(),
            first == (DoomedV { nodes: seq![], edges: seq![] }),
            doomed(
                value::recs_view(rows@),
                0,
                ast::exprs_view(exprs@),
                first,
                ctx.env(),
                storage.store(),
            ) == doomed(
                value::recs_view(rows@),
                i as int,
                ast::exprs_view(exprs@),
                d@,
                ctx.env(),
                storage.store(),
            ),
        decreases rows.len() - i,
    {
        collect_doomed_in_row(exprs, &rows[i], &mut d, &ctx.at(i), storage)?;
        i += 1;
    }
    Ok(d)
}

/// The view of the result of a step without a value.
pub open spec fn unit_done(r: Result<(), CypherError>, st: StoreV) -> DoneV<()> {
    match r {
        Ok(_) => (Ok(()), st),
        Err(e) => (Err(e@), st),
    }
}

fn delete_edges<S: StorageBackend>(ids: &Vec<EdgeId>, storage: &mut S) -> (r: Result<
    (),
    CypherError,
>)
    requires
        old(storage).valid(),
    ensures
        final(storage).valid(),
        unit_done(r, final(storage).store()) == without_edges(ids@, 0, old(storage).store()),
{
    let ghost want = without_edges(ids@, 0, storage.store());
    let mut i: usize = 0;
    while i < ids.len()
        invariant
            storage.valid(),
            i <= ids.len(),
            want == without_edges(ids@, 0, old(storage).store()),
            want == without_edges(ids@, i as int, storage.store()),
        decreases ids.len() - i,
    {
        match storage.delete_edge(ids[i]) {
            Ok(_) => {},
            Err(m) => {
                return Err(CypherError::RuntimeError(m));
            },
        }
        i += 1;
    }
    Ok(())
}

fn delete_nodes<S: StorageBackend>(ids: &Vec<NodeId>, detach: bool, storage: &mut S) -> (r: Result<
    (),
    CypherError,
>)
    requires
        old(storage).valid(),
    ensures
        final(storage).valid(),
        unit_done(r, final(storage).store()) == without_nodes(
            ids@,
            0,
            detach,
            old(storage).store(),
        ),
{
    let ghost want = without_nodes(ids@, 0, detach, storage.store());
    let mut i: usize = 0;
    while i < ids.len()
        invariant
            storage.valid(),
            i <= ids.len(),
            want == without_nodes(ids@, 0, detach, old(storage).store()),
            want == without_nodes(ids@, i as int, detach, storage.store()),
        decreases ids.len() - i,
    {
        match storage.delete_node(ids[i], detach) {
            Ok(_) => {},
            Err(m) => {
                return Err(CypherError::RuntimeError(m));
            },
        }
        i += 1;
    }
    Ok(())
}

fn value_survives(v: &CypherValue, d: &Doomed) -> (r: bool)
    ensures
        r == survives(v@, d@),
{
    match v {
        CypherValue::Node(n) => !has_id(&d.nodes, n.id),
        CypherValue::Relationship(e) => !has_id(&d.edges, e.id),
        _ => true,
    }
}

fn keep_surviving(rec: &Record, d: &Doomed) -> (r: Record)
    ensures
        r@ == surviving(rec@, 0, seq![], d@),
{
    let mut out = ValueMap { entries: Vec::new() };
    proof {
        assert(out@ =~= RecV::empty());
    }
    let mut i: usize = 0;
    while i < rec.entries.len()
        invariant
            i <= rec.entries.len(),
            surviving(rec@, 0, seq![], d@) == surviving(rec@, i as int, out@, d@),
        decreases rec.entries.len() - i,
    {
        if value_survives(&rec.entries[i].1, d) {
            let ghost before = out@;
            out.entries.push((rec.entries[i].0.clone(), rec.entries[i].1.clone()));
            proof {
                assert(out@ =~= before.push(rec@[i as int]));
            }
        }
        i += 1;
    }
    out
}

/// Deletes the nodes and relationships that the expressions give on the rows.
pub fn execute_delete<S: StorageBackend, O: Outside>(
    t: Table,
    exprs: &Vec<Expression>,
    detach: bool,
    ctx: &Ctx<O>,
    storage: &mut S,
) -> (r: Result<Table, CypherError>)
    requires
        old(storage).valid(),
    ensures
        final(storage).valid(),
        writes::table_done(r, final(storage).store()) == deleted(
            t@,
            ast::exprs_view(exprs@),
            detach,
            ctx.env(),
            old(storage).store(),
        ),
{
    let d = collect_doomed(&t.rows, exprs, ctx, storage)?;
    delete_edges(&d.edges, storage)?;
    delete_nodes(&d.nodes, detach, storage)?;
    let mut out: Vec<Record> = Vec::new();
    let mut i: usize = 0;
    while i < t.rows.len()
        invariant
            i <= t.rows.len(),
            out@.len() == i,
            forall|j: int|
                0 <= j < i ==> (#[trigger] out@[j])@ == surviving(t.rows@[j]@, 0, seq![], d@),
        decreases t.rows.len() - i,
    {
        out.push(keep_surviving(&t.rows[i], &d));
        i += 1;
    }
    proof {
        assert(value::recs_view(out@) =~= Seq::new(
            t@.rows.len(),
            |i: int| surviving(t@.rows[i], 0, seq![], d@),
        ));
    }
    Ok(Table { cols: t.cols, rows: out })
}

} // verus!
