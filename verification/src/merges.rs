//! MERGE.
use crate::ast::{
    self, ChainV, NodePatV, NodePattern, PatternChainElement, PatternElement, PatternV, SetItem,
    SetV,
};
use crate::backend::StorageBackend;
use crate::error::{CypherError, ErrV};
use crate::eval::{bound_value, edges_in_direction, far_end, has_all_labels, type_fits, Ctx};
use crate::number::order_floats;
use crate::outside::Outside;
use crate::rows::{self, add_col, add_opt_col, Table, TableV};
use crate::semantics::{self, EnvV};
use crate::store::{self, StoreV};
use crate::text::{self, clone_texts, same_text, Order};
use crate::value::{
    self, CypherValue, Edge, EdgeV, Node, NodeId, NodeV, PropertyMap, PropertyValue, PropsV, RecV,
    Record, ValV,
};
use crate::writes::{
    self, add_chain_cols, apply_set_items, execute_create_path_row, make_base_rows,
    resolve_map_literal_to_properties, DoneV,
};
use vstd::prelude::*;

verus! {

/// A row after the items of ON CREATE or ON MATCH, if there are any.
pub open spec fn set_opt(items: Option<Seq<SetV>>, rec: RecV, env: EnvV, st: StoreV) -> DoneV<RecV> {
    match items {
        Some(s) => writes::set_items(s, 0, rec, env, st),
        None => (Ok(rec), st),
    }
}

fn apply_opt_items<S: StorageBackend, O: Outside>(
    items: &Option<Vec<SetItem>>,
    rec: &mut Record,
    ctx: &Ctx<O>,
    storage: &mut S,
) -> (r: Result<(), CypherError>)
    requires
        old(storage).valid(),
    ensures
        final(storage).valid(),
        r is Ok ==> set_opt(ast::opt_sets(*items), old(rec)@, ctx.env(), old(storage).store()) == (
            Ok::<RecV, ErrV>(final(rec)@),
            final(storage).store(),
        ),
        r matches Err(e) ==> set_opt(
            ast::opt_sets(*items),
            old(rec)@,
            ctx.env(),
            old(storage).store(),
        ) == (Err::<RecV, ErrV>(e@), final(storage).store()),
{
    match items {
        Some(s) => apply_set_items(s, rec, ctx, storage),
        None => Ok(()),
    }
}

// ---------------------------------------------------------------------------
// A single node
// ---------------------------------------------------------------------------

/// The rows for the nodes from the `i`-th on that a MERGE has found.
pub open spec fn matched_rows(
    rec: RecV,
    variable: Seq<char>,
    ids: Seq<u64>,
    i: int,
    acc: Seq<RecV>,
    on_match: Option<Seq<SetV>>,
    env: EnvV,
    st: StoreV,
) -> DoneV<Seq<RecV>>
    decreases ids.len() - i,
{
    if i < 0 || i >= ids.len() {
        (Ok(acc), st)
    } else if store::node_at(st, ids[i]) is None {
        (Err(ErrV::Runtime("Merged node not found"@)), st)
    } else {
        match set_opt(on_match, writes::with_node(rec, variable, ids[i], st), env.at(i), st) {
            (Err(x), after) => (Err(x), after),
            (Ok(r), after) => matched_rows(
                rec,
                variable,
                ids,
                i + 1,
                acc.push(r),
                on_match,
                env,
                after,
            ),
        }
    }
}

/// The rows for one row of a MERGE of a node, behind `acc`.
pub open spec fn merge_node_row(
    rec: RecV,
    np: NodePatV,
    variable: Seq<char>,
    acc: Seq<RecV>,
    on_create: Option<Seq<SetV>>,
    on_match: Option<Seq<SetV>>,
    env: EnvV,
    st: StoreV,
) -> DoneV<Seq<RecV>> {
    match writes::resolved(np.properties, rec, env.at(0), st) {
        Err(x) => (Err(x), st),
        Ok(props) => {
            let ids = store::found(st, np.labels, props);
            if ids.len() > 0 {
                matched_rows(rec, variable, ids, 0, acc, on_match, env.at(1), st)
            } else {
                let created = store::node_created(st, np.labels, props);
                match set_opt(
                    on_create,
                    writes::with_node(rec, variable, st.nodes.len() as u64, created),
                    env.at(1),
                    created,
                ) {
                    (Err(x), after) => (Err(x), after),
                    (Ok(r), after) => (Ok(acc.push(r)), after),
                }
            }
        },
    }
}

pub open spec fn merge_node_rows(
    rows: Seq<RecV>,
    i: int,
    np: NodePatV,
    variable: Seq<char>,
    acc: Seq<RecV>,
    on_create: Option<Seq<SetV>>,
    on_match: Option<Seq<SetV>>,
    env: EnvV,
    st: StoreV,
) -> DoneV<Seq<RecV>>
    decreases rows.len() - i,
{
    if i < 0 || i >= rows.len() {
        (Ok(acc), st)
    } else {
        match merge_node_row(rows[i], np, variable, acc, on_create, on_match, env.at(i), st) {
            (Err(x), after) => (Err(x), after),
            (Ok(acc1), after) => merge_node_rows(
                rows,
                i + 1,
                np,
                variable,
                acc1,
                on_create,
                on_match,
                env,
                after,
            ),
        }
    }
}

/// The variable of a node that MERGE finds or creates.
pub open spec fn merge_variable(variable: Option<Seq<char>>) -> Seq<char> {
    match variable {
        Some(v) => v,
        None => "_merge_node"@,
    }
}

/// A table after the MERGE of a node: for each row the nodes that fit, or one
/// new node where none does.
pub open spec fn merged_nodes(
    t: TableV,
    np: NodePatV,
    on_create: Option<Seq<SetV>>,
    on_match: Option<Seq<SetV>>,
    env: EnvV,
    st: StoreV,
) -> DoneV<TableV> {
    let variable = merge_variable(np.variable);
    match merge_node_rows(
        writes::base_rows(t.rows),
        0,
        np,
        variable,
        seq![],
        on_create,
        on_match,
        env,
        st,
    ) {
        (Err(x), after) => (Err(x), after),
        (Ok(rows), after) => (Ok(TableV { cols: rows::with_col(t.cols, variable), rows }), after),
    }
}

fn merge_matched<S: StorageBackend, O: Outside>(
    rec: &Record,
    variable: &str,
    ids: &Vec<NodeId>,
    out: &mut Vec<Record>,
    on_match: &Option<Vec<SetItem>>,
    ctx: &Ctx<O>,
    storage: &mut S,
) -> (r: Result<(), CypherError>)
    requires
        old(storage).valid(),
    ensures
        final(storage).valid(),
        r is Ok ==> matched_rows(
            rec@,
            variable@,
            ids@,
            0,
            value::recs_view(old(out)@),
            ast::opt_sets(*on_match),
            ctx.env(),
            old(storage).store(),
        ) == (Ok::<Seq<RecV>, ErrV>(value::recs_view(final(out)@)), final(storage).store()),
        r matches Err(e) ==> matched_rows(
            rec@,
            variable@,
            ids@,
            0,
            value::recs_view(old(out)@),
            ast::opt_sets(*on_match),
            ctx.env(),
            old(storage).store(),
        ) == (Err::<Seq<RecV>, ErrV>(e@), final(storage).store()),
{
    let ghost want = matched_rows(
        rec@,
        variable@,
        ids@,
        0,
        value::recs_view(out@),
        ast::opt_sets(*on_match),
        ctx.env(),
        storage.store(),
    );
    let mut i: usize = 0;
    while i < ids.len()
        invariant
            storage.valid(),
            i <= ids.len(),
            want == matched_rows(
                rec@,
                variable@,
                ids@,
                0,
                value::recs_view(old(out)@),
                ast::opt_sets(*on_match),
                ctx.env(),
                old(storage).store(),
            ),
            want == matched_rows(
                rec@,
                variable@,
                ids@,
                i as int,
                value::recs_view(out@),
                ast::opt_sets(*on_match),
                ctx.env(),
                storage.store(),
            ),
        decreases ids.len() - i,
    {
        let mut row = rec.clone();
        match storage.get_node(ids[i]) {
            None => {
                return Err(CypherError::RuntimeError("Merged node not found".to_owned()));
            },
            Some(n) => {
                row.insert(variable.to_owned(), CypherValue::Node(n));
            },
        }
        apply_opt_items(on_match, &mut row, &ctx.at(i), storage)?;
        proof {
            rows::lemma_recs_push(out@, row);
        }
        out.push(row);
        i += 1;
    }
    Ok(())
}

fn merge_node_for_row<S: StorageBackend, O: Outside>(
    rec: Record,
    np: &NodePattern,
    variable: &str,
    out: &mut Vec<Record>,
    on_create: &Option<Vec<SetItem>>,
    on_match: &Option<Vec<SetItem>>,
    ctx: &Ctx<O>,
    storage: &mut S,
) -> (r: Result<(), CypherError>)
    requires
        old(storage).valid(),
    ensures
        final(storage).valid(),
        r is Ok ==> merge_node_row(
            rec@,
            np@,
            variable@,
            value::recs_view(old(out)@),
            ast::opt_sets(*on_create),
            ast::opt_sets(*on_match),
            ctx.env(),
            old(storage).store(),
        ) == (Ok::<Seq<RecV>, ErrV>(value::recs_view(final(out)@)), final(storage).store()),
        r matches Err(e) ==> merge_node_row(
            rec@,
            np@,
            variable@,
            value::recs_view(old(out)@),
            ast::opt_sets(*on_create),
            ast::opt_sets(*on_match),
            ctx.env(),
            old(storage).store(),
        ) == (Err::<Seq<RecV>, ErrV>(e@), final(storage).store()),
{
    let props = resolve_map_literal_to_properties(&np.properties, &rec, &ctx.at(0), storage)?;
    let ids = storage.find_nodes(&np.labels, &props);
    let here = ctx.at(1);
    if ids.len() > 0 {
        merge_matched(&rec, variable, &ids, out, on_match, &here, storage)
    } else {
        let id = storage.create_node(clone_texts(&np.labels), props);
        let mut row = rec;
        writes::sync_node_in_record(&mut row, variable, id, storage);
        apply_opt_items(on_create, &mut row, &here, storage)?;
        proof {
            rows::lemma_recs_push(out@, row);
        }
        out.push(row);
        Ok(())
    }
}

/// MERGE of a node.
fn execute_merge_node<S: StorageBackend, O: Outside>(
    t: Table,
    np: &NodePattern,
    on_create: &Option<Vec<SetItem>>,
    on_match: &Option<Vec<SetItem>>,
    ctx: &Ctx<O>,
    storage: &mut S,
) -> (r: Result<Table, CypherError>)
    requires
        old(storage).valid(),
    ensures
        final(storage).valid(),
        writes::table_done(r, final(storage).store()) == merged_nodes(
            t@,
            np@,
            ast::opt_sets(*on_create),
            ast::opt_sets(*on_match),
            ctx.env(),
            old(storage).store(),
        ),
{
    let variable = match &np.variable {
        Some(v) => v.clone(),
        None => "_merge_node".to_owned(),
    };
    let mut cols = t.cols;
    add_col(&mut cols, variable.as_str());
    let rows = make_base_rows(t.rows);
    let mut out: Vec<Record> = Vec::new();
    let ghost st0 = storage.store();
    let ghost base = value::recs_view(rows@);
    proof {
        assert(value::recs_view(out@) =~= Seq::<RecV>::empty());
        assert(variable@ == merge_variable(np@.variable));
    }
    let mut i: usize = 0;
    while i < rows.len()
        invariant
            storage.valid(),
            st0 == old(storage).store(),
            base == value::recs_view(rows@),
            base == writes::base_rows(t@.rows),
            variable@ == merge_variable(np@.variable),
            i <= rows.len(),
            merge_node_rows(
                base,
                0,
                np@,
                variable@,
                seq![],
                ast::opt_sets(*on_create),
                ast::opt_sets(*on_match),
                ctx.env(),
                st0,
            ) == merge_node_rows(
                base,
                i as int,
                np@,
                variable@,
                value::recs_view(out@),
                ast::opt_sets(*on_create),
                ast::opt_sets(*on_match),
                ctx.env(),
                storage.store(),
            ),
        decreases rows.len() - i,
    {
        merge_node_for_row(
            rows[i].clone(),
            np,
            variable.as_str(),
            &mut out,
            on_create,
            on_match,
            &ctx.at(i),
            storage,
        )?;
        i += 1;
    }
    Ok(Table { cols, rows: out })
}

// ---------------------------------------------------------------------------
// A chain
// ---------------------------------------------------------------------------

/// The beginning of a walk along a chain: a row, and the node reached.
pub type CandV = (RecV, u64);

pub open spec fn cands_view(s: Seq<(Record, NodeId)>) -> Seq<CandV> {
    Seq::new(s.len(), |i: int| (s[i].0@, s[i].1))
}

proof fn lemma_cands_push(s: Seq<(Record, NodeId)>, rec: Record, id: NodeId)
    ensures
        cands_view(s.push((rec, id))) == cands_view(s).push((rec@, id)),
{
    assert(cands_view(s.push((rec, id))) =~= cands_view(s).push((rec@, id)));
}

/// A node has all labels, and properties equal to the given ones.
pub open spec fn fits(n: NodeV, labels: Seq<Seq<char>>, props: PropsV) -> bool {
    store::has_labels(n.labels, labels, 0) && store::has_equal_props(n.properties, props, 0)
}

/// The walks that begin at the nodes from the `i`-th on.
pub open spec fn seeds_from(
    rec: RecV,
    variable: Option<Seq<char>>,
    ids: Seq<u64>,
    i: int,
    acc: Seq<CandV>,
    st: StoreV,
) -> Seq<CandV>
    decreases ids.len() - i,
{
    if i < 0 || i >= ids.len() {
        acc
    } else {
        seeds_from(
            rec,
            variable,
            ids,
            i + 1,
            match store::node_at(st, ids[i]) {
                Some(n) => acc.push((rows::bind_opt(rec, variable, ValV::Node(n)), ids[i])),
                None => acc,
            },
            st,
        )
    }
}

/// The walks that begin at a start node that fits. A variable that is bound
/// already stays as it is.
pub open spec fn seeds(rec: RecV, start: NodePatV, env: EnvV, st: StoreV) -> Result<Seq<CandV>, ErrV> {
    match writes::resolved(start.properties, rec, env, st) {
        Err(x) => Err(x),
        Ok(props) => match semantics::bound_to(start.variable, rec) {
            Some(ValV::Node(n)) => Ok(
                if fits(n, start.labels, props) {
                    seq![(rec, n.id)]
                } else {
                    seq![]
                },
            ),
            _ => Ok(
                seeds_from(
                    rec,
                    start.variable,
                    store::found(st, start.labels, props),
                    0,
                    seq![],
                    st,
                ),
            ),
        },
    }
}

/// A walk, continued along a relationship, if that fits a step of the chain.
pub open spec fn cand_along(
    rec: RecV,
    prev: u64,
    e: EdgeV,
    step: ChainV,
    rel_props: PropsV,
    node_props: PropsV,
    st: StoreV,
) -> Option<CandV> {
    let other = semantics::other_end(e, prev, step.relationship.direction);
    if !semantics::of_type(step.relationship.rel_types, e.label) || !store::has_equal_props(
        e.properties,
        rel_props,
        0,
    ) || (semantics::bound_to(step.node.variable, rec) matches Some(ValV::Node(b)) && b.id
        != other) {
        None
    } else {
        match store::node_at(st, other) {
            Some(n) => if fits(n, step.node.labels, node_props) {
                Some(
                    (
                        rows::bind_opt(
                            rows::bind_opt(
                                rec,
                                step.relationship.variable,
                                ValV::Relationship(e),
                            ),
                            step.node.variable,
                            ValV::Node(n),
                        ),
                        other,
                    ),
                )
            } else {
                None
            },
            None => None,
        }
    }
}

/// A walk, continued along the relationships from the `i`-th on.
pub open spec fn cands_along(
    rec: RecV,
    prev: u64,
    edges: Seq<EdgeV>,
    i: int,
    acc: Seq<CandV>,
    step: ChainV,
    rel_props: PropsV,
    node_props: PropsV,
    st: StoreV,
) -> Seq<CandV>
    decreases edges.len() - i,
{
    if i < 0 || i >= edges.len() {
        acc
    } else {
        cands_along(
            rec,
            prev,
            edges,
            i + 1,
            match cand_along(rec, prev, edges[i], step, rel_props, node_props, st) {
                Some(c) => acc.push(c),
                None => acc,
            },
            step,
            rel_props,
            node_props,
            st,
        )
    }
}

/// A walk, continued by a step of the chain in every way, behind `acc`.
pub open spec fn cand_continued(
    c: CandV,
    step: ChainV,
    acc: Seq<CandV>,
    env: EnvV,
    st: StoreV,
) -> Result<Seq<CandV>, ErrV> {
    match writes::resolved(step.relationship.properties, c.0, env.at(0), st) {
        Err(x) => Err(x),
        Ok(rel_props) => match writes::resolved(step.node.properties, c.0, env.at(1), st) {
            Err(x) => Err(x),
            Ok(node_props) => Ok(
                cands_along(
                    c.0,
                    c.1,
                    semantics::edges_at(st, c.1, step.relationship.direction),
                    0,
                    acc,
                    step,
                    rel_props,
                    node_props,
                    st,
                ),
            ),
        },
    }
}

/// The walks from the `i`-th on, continued by a step of the chain.
pub open spec fn cands_continued(
    cands: Seq<CandV>,
    i: int,
    step: ChainV,
    acc: Seq<CandV>,
    env: EnvV,
    st: StoreV,
) -> Result<Seq<CandV>, ErrV>
    decreases cands.len() - i,
{
    if i < 0 || i >= cands.len() {
        Ok(acc)
    } else {
        match cand_continued(cands[i], step, acc, env.at(i), st) {
            Err(x) => Err(x),
            Ok(more) => cands_continued(cands, i + 1, step, more, env, st),
        }
    }
}

/// The walks along the chain from its `i`-th step on.
pub open spec fn walks(
    cands: Seq<CandV>,
    chain: Seq<ChainV>,
    i: int,
    env: EnvV,
    st: StoreV,
) -> Result<Seq<CandV>, ErrV>
    decreases chain.len() - i,
{
    if i < 0 || i >= chain.len() {
        Ok(cands)
    } else {
        match cands_continued(cands, 0, chain[i], seq![], env.at(i), st) {
            Err(x) => Err(x),
            Ok(next) => walks(next, chain, i + 1, env, st),
        }
    }
}

/// The rows of the walks from the `i`-th on, after ON MATCH.
pub open spec fn walk_rows(
    cands: Seq<CandV>,
    i: int,
    acc: Seq<RecV>,
    on_match: Option<Seq<SetV>>,
    env: EnvV,
    st: StoreV,
) -> DoneV<Seq<RecV>>
    decreases cands.len() - i,
{
    if i < 0 || i >= cands.len() {
        (Ok(acc), st)
    } else {
        match set_opt(on_match, cands[i].0, env.at(i), st) {
            (Err(x), after) => (Err(x), after),
            (Ok(r), after) => walk_rows(cands, i + 1, acc.push(r), on_match, env, after),
        }
    }
}

/// The rows for one row of a MERGE of a chain, behind `acc`: one for each walk
/// along the whole chain, or one for the new chain where there is none. Nodes
/// and relationships that the row binds are part of the new chain.
pub open spec fn merge_chain_row(
    rec: RecV,
    start: NodePatV,
    chain: Seq<ChainV>,
    acc: Seq<RecV>,
    on_create: Option<Seq<SetV>>,
    on_match: Option<Seq<SetV>>,
    env: EnvV,
    st: StoreV,
) -> DoneV<Seq<RecV>> {
    match seeds(rec, start, env.at(0), st) {
        Err(x) => (Err(x), st),
        Ok(first) => match walks(first, chain, 0, env.at(1), st) {
            Err(x) => (Err(x), st),
            Ok(cands) => if cands.len() > 0 {
                walk_rows(cands, 0, acc, on_match, env.at(2), st)
            } else {
                match writes::create_path_row(rec, start, chain, rec, env.at(3), st) {
                    (Err(x), after) => (Err(x), after),
                    (Ok(r), st1) => match set_opt(on_create, r, env.at(4), st1) {
                        (Err(x), after) => (Err(x), after),
                        (Ok(r2), st2) => (Ok(acc.push(r2)), st2),
                    },
                }
            },
        },
    }
}

pub open spec fn merge_chain_rows(
    rows: Seq<RecV>,
    i: int,
    start: NodePatV,
    chain: Seq<ChainV>,
    acc: Seq<RecV>,
    on_create: Option<Seq<SetV>>,
    on_match: Option<Seq<SetV>>,
    env: EnvV,
    st: StoreV,
) -> DoneV<Seq<RecV>>
    decreases rows.len() - i,
{
    if i < 0 || i >= rows.len() {
        (Ok(acc), st)
    } else {
        match merge_chain_row(rows[i], start, chain, acc, on_create, on_match, env.at(i), st) {
            (Err(x), after) => (Err(x), after),
            (Ok(acc1), after) => merge_chain_rows(
                rows,
                i + 1,
                start,
                chain,
                acc1,
                on_create,
                on_match,
                env,
                after,
            ),
        }
    }
}

/// A table after the MERGE of a chain.
pub open spec fn merged_chains(
    t: TableV,
    start: NodePatV,
    chain: Seq<ChainV>,
    on_create: Option<Seq<SetV>>,
    on_match: Option<Seq<SetV>>,
    env: EnvV,
    st: StoreV,
) -> DoneV<TableV> {
    match merge_chain_rows(
        writes::base_rows(t.rows),
        0,
        start,
        chain,
        seq![],
        on_create,
        on_match,
        env,
        st,
    ) {
        (Err(x), after) => (Err(x), after),
        (Ok(rows), after) => (
            Ok(
                TableV {
                    cols: writes::chain_cols(
                        rows::with_opt_col(t.cols, start.variable),
                        chain,
                        0,
                    ),
                    rows,
                },
            ),
            after,
        ),
    }
}

/// A table after MERGE.
pub open spec fn merged(
    t: TableV,
    pattern: PatternV,
    on_create: Option<Seq<SetV>>,
    on_match: Option<Seq<SetV>>,
    env: EnvV,
    st: StoreV,
) -> DoneV<TableV> {
    match pattern {
        PatternV::Node(np) => merged_nodes(t, np, on_create, on_match, env, st),
        PatternV::Chain { start, elements } => merged_chains(
            t,
            start,
            elements,
            on_create,
            on_match,
            env,
            st,
        ),
        _ => (
            Err(ErrV::Semantic("shortestPath/allShortestPaths cannot be used in MERGE"@)),
            st,
        ),
    }
}

pub fn equal_properties(a: &PropertyValue, b: &PropertyValue) -> (r: bool)
    ensures
        r == store::props_equal(a@, b@),
{
    match (a, b) {
        (PropertyValue::String(x), PropertyValue::String(y)) => same_text(
            x.as_str(),
            y.as_str(),
        ),
        (PropertyValue::Int(x), PropertyValue::Int(y)) => *x == *y,
        (PropertyValue::Float(x), PropertyValue::Float(y)) => match order_floats(*x, *y) {
            Some(Order::Equal) => true,
            _ => false,
        },
        (PropertyValue::Bool(x), PropertyValue::Bool(y)) => *x == *y,
        _ => false,
    }
}

/// Whether each required property is there with an equal value.
pub fn properties_match(actual: &PropertyMap, required: &PropertyMap) -> (r: bool)
    ensures
        r == store::has_equal_props(actual@, required@, 0),
{
    let mut i: usize = 0;
    while i < required.entries.len()
        invariant
            i <= required.entries.len(),
            store::has_equal_props(actual@, required@, 0) == store::has_equal_props(
                actual@,
                required@,
                i as int,
            ),
        decreases required.entries.len() - i,
    {
        match actual.get(required.entries[i].0.as_str()) {
            Some(v) => {
                if !equal_properties(v, &required.entries[i].1) {
                    return false;
                }
            },
            None => {
                return false;
            },
        }
        i += 1;
    }
    true
}

/// Whether a node has all labels, and properties equal to the given ones.
pub fn node_matches_filters(node: &Node, labels: &Vec<String>, props: &PropertyMap) -> (r: bool)
    ensures
        r == fits(node@, text::texts_view(labels@), props@),
{
    has_all_labels(&node.labels, labels) && properties_match(&node.properties, props)
}

/// The view of walks or an error.
pub open spec fn cands_outcome(r: Result<Vec<(Record, NodeId)>, CypherError>) -> Result<
    Seq<CandV>,
    ErrV,
> {
    match r {
        Ok(v) => Ok(cands_view(v@)),
        Err(e) => Err(e@),
    }
}

fn seed_merge_candidates<S: StorageBackend, O: Outside>(
    rec: &Record,
    start: &NodePattern,
    ctx: &Ctx<O>,
    storage: &S,
) -> (r: Result<Vec<(Record, NodeId)>, CypherError>)
    requires
        storage.valid(),
    ensures
        cands_outcome(r) == seeds(rec@, start@, ctx.env(), storage.store()),
{
    let props = resolve_map_literal_to_properties(&start.properties, rec, ctx, storage)?;
    let mut out: Vec<(Record, NodeId)> = Vec::new();
    proof {
        assert(cands_view(out@) =~= Seq::<CandV>::empty());
    }
    if let Some(CypherValue::Node(n)) = bound_value(&start.variable, rec) {
        if node_matches_filters(n, &start.labels, &props) {
            let c = rec.clone();
            proof {
                lemma_cands_push(out@, c, n.id);
                assert(cands_view(out@).push((c@, n.id)) =~= seq![(rec@, n.id)]);
            }
            out.push((c, n.id));
        }
        return Ok(out);
    }
    let ids = storage.find_nodes(&start.labels, &props);
    let ghost want = seeds_from(
        rec@,
        ast::opt_text(start.variable),
        ids@,
        0,
        seq![],
        storage.store(),
    );
    let mut i: usize = 0;
    while i < ids.len()
        invariant
            storage.valid(),
            i <= ids.len(),
            want == seeds_from(
                rec@,
                ast::opt_text(start.variable),
                ids@,
                i as int,
                cands_view(out@),
                storage.store(),
            ),
        decreases ids.len() - i,
    {
        if let Some(n) = storage.get_node(ids[i]) {
            let mut row = rec.clone();
            if let Some(v) = &start.variable {
                row.insert(v.clone(), CypherValue::Node(n));
            }
            proof {
                lemma_cands_push(out@, row, ids@[i as int]);
            }
            out.push((row, ids[i]));
        }
        i += 1;
    }
    Ok(out)
}

fn walk_along<S: StorageBackend>(
    rec: &Record,
    prev: NodeId,
    edge: &Edge,
    step: &PatternChainElement,
    rel_props: &PropertyMap,
    node_props: &PropertyMap,
    storage: &S,
) -> (r: Option<(Record, NodeId)>)
    requires
        storage.valid(),
    ensures
        (match r {
            Some(c) => Some((c.0@, c.1)),
            None => None,
        }) == cand_along(
            rec@,
            prev,
            edge@,
            step@,
            rel_props@,
            node_props@,
            storage.store(),
        ),
{
    let other = far_end(edge, prev, step.relationship.direction);
    if !type_fits(&step.relationship.rel_types, edge.label.as_str()) {
        return None;
    }
    if !properties_match(&edge.properties, rel_props) {
        return None;
    }
    if let Some(CypherValue::Node(b)) = bound_value(&step.node.variable, rec) {
        if b.id != other {
            return None;
        }
    }
    match storage.get_node(other) {
        None => None,
        Some(n) => {
            if node_matches_filters(&n, &step.node.labels, node_props) {
                let mut row = rec.clone();
                if let Some(v) = &step.relationship.variable {
                    row.insert(v.clone(), CypherValue::Relationship(edge.clone()));
                }
                if let Some(v) = &step.node.variable {
                    row.insert(v.clone(), CypherValue::Node(n));
                }
                Some((row, other))
            } else {
                None
            }
        },
    }
}

fn expand_merge_candidate<S: StorageBackend, O: Outside>(
    rec: &Record,
    prev: NodeId,
    step: &PatternChainElement,
    out: &mut Vec<(Record, NodeId)>,
    ctx: &Ctx<O>,
    storage: &S,
) -> (r: Result<(), CypherError>)
    requires
        storage.valid(),
    ensures
        match r {
            Ok(_) => cand_continued(
                (rec@, prev),
                step@,
                cands_view(old(out)@),
                ctx.env(),
                storage.store(),
            ) == Ok::<Seq<CandV>, ErrV>(cands_view(final(out)@)),
            Err(e) => cand_continued(
                (rec@, prev),
                step@,
                cands_view(old(out)@),
                ctx.env(),
                storage.store(),
            ) == Err::<Seq<CandV>, ErrV>(e@),
        },
{
    let rel_props = resolve_map_literal_to_properties(
        &step.relationship.properties,
        rec,
        &ctx.at(0),
        storage,
    )?;
    let node_props = resolve_map_literal_to_properties(
        &step.node.properties,
        rec,
        &ctx.at(1),
        storage,
    )?;
    let edges = edges_in_direction(storage, prev, step.relationship.direction);
    let ghost want = cands_along(
        rec@,
        prev,
        value::edges_view(edges@),
        0,
        cands_view(out@),
        step@,
        rel_props@,
        node_props@,
        storage.store(),
    );
    let mut i: usize = 0;
    while i < edges.len()
        invariant
            storage.valid(),
            i <= edges.len(),
            want == cands_along(
                rec@,
                prev,
                value::edges_view(edges@),
                i as int,
                cands_view(out@),
                step@,
                rel_props@,
                node_props@,
                storage.store(),
            ),
        decreases edges.len() - i,
    {
        proof {
            assert(value::edges_view(edges@)[i as int] == edges@[i as int]@);
        }
        if let Some((row, id)) = walk_along(
            rec,
            prev,
            &edges[i],
            step,
            &rel_props,
            &node_props,
            storage,
        ) {
            proof {
                lemma_cands_push(out@, row, id);
            }
            out.push((row, id));
        }
        i += 1;
    }
    Ok(())
}

fn continue_walks<S: StorageBackend, O: Outside>(
    cands: &Vec<(Record, NodeId)>,
    step: &PatternChainElement,
    ctx: &Ctx<O>,
    storage: &S,
) -> (r: Result<Vec<(Record, NodeId)>, CypherError>)
    requires
        storage.valid(),
    ensures
        cands_outcome(r) == cands_continued(
            cands_view(cands@),
            0,
            step@,
            seq![],
            ctx.env(),
            storage.store(),
        ),
{
    let mut out: Vec<(Record, NodeId)> = Vec::new();
    proof {
        assert(cands_view(out@) =~= Seq::<CandV>::empty());
    }
    let mut i: usize = 0;
    while i < cands.len()
        invariant
            storage.valid(),
            i <= cands.len(),
            cands_continued(
                cands_view(cands@),
                0,
                step@,
                seq![],
                ctx.env(),
                storage.store(),
            ) == cands_continued(
                cands_view(cands@),
                i as int,
                step@,
                cands_view(out@),
                ctx.env(),
                storage.store(),
            ),
        decreases cands.len() - i,
    {
        expand_merge_candidate(&cands[i].0, cands[i].1, step, &mut out, &ctx.at(i), storage)?;
        i += 1;
    }
    Ok(out)
}

fn find_walks<S: StorageBackend, O: Outside>(
    first: Vec<(Record, NodeId)>,
    chain: &Vec<PatternChainElement>,
    ctx: &Ctx<O>,
    storage: &S,
) -> (r: Result<Vec<(Record, NodeId)>, CypherError>)
    requires
        storage.valid(),
    ensures
        cands_outcome(r) == walks(
            cands_view(first@),
            ast::chain_view(chain@),
            0,
            ctx.env(),
            storage.store(),
        ),
{
    let ghost start = cands_view(first@);
    let mut cands = first;
    let mut i: usize = 0;
    while i < chain.len()
        invariant
            storage.valid(),
            i <= chain.len(),
            start == cands_view(first@),
            walks(start, ast::chain_view(chain@), 0, ctx.env(), storage.store()) == walks(
                cands_view(cands@),
                ast::chain_view(chain@),
                i as int,
                ctx.env(),
                storage.store(),
            ),
        decreases chain.len() - i,
    {
        proof {
            assert(ast::chain_view(chain@)[i as int] == chain@[i as int]@);
        }
        cands = continue_walks(&cands, &chain[i], &ctx.at(i), storage)?;
        i += 1;
    }
    Ok(cands)
}

fn emit_walks<S: StorageBackend, O: Outside>(
    cands: &Vec<(Record, NodeId)>,
    out: &mut Vec<Record>,
    on_match: &Option<Vec<SetItem>>,
    ctx: &Ctx<O>,
    storage: &mut S,
) -> (r: Result<(), CypherError>)
    requires
        old(storage).valid(),
    ensures
        final(storage).valid(),
        r is Ok ==> walk_rows(
            cands_view(cands@),
            0,
            value::recs_view(old(out)@),
            ast::opt_sets(*on_match),
            ctx.env(),
            old(storage).store(),
        ) == (Ok::<Seq<RecV>, ErrV>(value::recs_view(final(out)@)), final(storage).store()),
        r matches Err(e) ==> walk_rows(
            cands_view(cands@),
            0,
            value::recs_view(old(out)@),
            ast::opt_sets(*on_match),
            ctx.env(),
            old(storage).store(),
        ) == (Err::<Seq<RecV>, ErrV>(e@), final(storage).store()),
{
    let ghost want = walk_rows(
        cands_view(cands@),
        0,
        value::recs_view(out@),
        ast::opt_sets(*on_match),
        ctx.env(),
        storage.store(),
    );
    let mut i: usize = 0;
    while i < cands.len()
        invariant
            storage.valid(),
            i <= cands.len(),
            want == walk_rows(
                cands_view(cands@),
                0,
                value::recs_view(old(out)@),
                ast::opt_sets(*on_match),
                ctx.env(),
                old(storage).store(),
            ),
            want == walk_rows(
                cands_view(cands@),
                i as int,
                value::recs_view(out@),
                ast::opt_sets(*on_match),
                ctx.env(),
                storage.store(),
            ),
        decreases cands.len() - i,
    {
        let mut row = cands[i].0.clone();
        apply_opt_items(on_match, &mut row, &ctx.at(i), storage)?;
        proof {
            rows::lemma_recs_push(out@, row);
        }
        out.push(row);
        i += 1;
    }
    Ok(())
}

fn merge_chain_for_row<S: StorageBackend, O: Outside>(
    rec: &Record,
    start: &NodePattern,
    chain: &Vec<PatternChainElement>,
    out: &mut Vec<Record>,
    on_create: &Option<Vec<SetItem>>,
    on_match: &Option<Vec<SetItem>>,
    ctx: &Ctx<O>,
    storage: &mut S,
) -> (r: Result<(), CypherError>)
    requires
        old(storage).valid(),
    ensures
        final(storage).valid(),
        r is Ok ==> merge_chain_row(
            rec@,
            start@,
            ast::chain_view(chain@),
            value::recs_view(old(out)@),
            ast::opt_sets(*on_create),
            ast::opt_sets(*on_match),
            ctx.env(),
            old(storage).store(),
        ) == (Ok::<Seq<RecV>, ErrV>(value::recs_view(final(out)@)), final(storage).store()),
        r matches Err(e) ==> merge_chain_row(
            rec@,
            start@,
            ast::chain_view(chain@),
            value::recs_view(old(out)@),
            ast::opt_sets(*on_create),
            ast::opt_sets(*on_match),
            ctx.env(),
            old(storage).store(),
        ) == (Err::<Seq<RecV>, ErrV>(e@), final(storage).store()),
{
    let first = seed_merge_candidates(rec, start, &ctx.at(0), storage)?;
    let cands = find_walks(first, chain, &ctx.at(1), storage)?;
    if cands.len() > 0 {
        emit_walks(&cands, out, on_match, &ctx.at(2), storage)
    } else {
        let mut row = rec.clone();
        execute_create_path_row(&mut row, start, chain, rec, &ctx.at(3), storage)?;
        apply_opt_items(on_create, &mut row, &ctx.at(4), storage)?;
        proof {
            rows::lemma_recs_push(out@, row);
        }
        out.push(row);
        Ok(())
    }
}

/// MERGE of a chain of relationships.
///
/// For each row, the whole chain is looked for in the graph. Where it is
/// found, there is a row for each way to find it, and ON MATCH applies.
/// Otherwise every node and relationship of the chain that is not bound yet is
/// created, and ON CREATE applies.
fn execute_merge_chain<S: StorageBackend, O: Outside>(
    t: Table,
    start: &NodePattern,
    chain: &Vec<PatternChainElement>,
    on_create: &Option<Vec<SetItem>>,
    on_match: &Option<Vec<SetItem>>,
    ctx: &Ctx<O>,
    storage: &mut S,
) -> (r: Result<Table, CypherError>)
    requires
        old(storage).valid(),
    ensures
        final(storage).valid(),
        writes::table_done(r, final(storage).store()) == merged_chains(
            t@,
            start@,
            ast::chain_view(chain@),
            ast::opt_sets(*on_create),
            ast::opt_sets(*on_match),
            ctx.env(),
            old(storage).store(),
        ),
{
    let mut cols = t.cols;
    add_opt_col(&mut cols, &start.variable);
    add_chain_cols(&mut cols, chain);
    let rows = make_base_rows(t.rows);
    let mut out: Vec<Record> = Vec::new();
    let ghost st0 = storage.store();
    let ghost base = value::recs_view(rows@);
    proof {
        assert(value::recs_view(out@) =~= Seq::<RecV>::empty());
    }
    let mut i: usize = 0;
    while i < rows.len()
        invariant
            storage.valid(),
            st0 == old(storage).store(),
            base == value::recs_view(rows@),
            base == writes::base_rows(t@.rows),
            i <= rows.len(),
            merge_chain_rows(
                base,
                0,
                start@,
                ast::chain_view(chain@),
                seq![],
                ast::opt_sets(*on_create),
                ast::opt_sets(*on_match),
                ctx.env(),
                st0,
            ) == merge_chain_rows(
                base,
                i as int,
                start@,
                ast::chain_view(chain@),
                value::recs_view(out@),
                ast::opt_sets(*on_create),
                ast::opt_sets(*on_match),
                ctx.env(),
                storage.store(),
            ),
        decreases rows.len() - i,
    {
        merge_chain_for_row(
            &rows[i],
            start,
            chain,
            &mut out,
            on_create,
            on_match,
            &ctx.at(i),
            storage,
        )?;
        i += 1;
    }
    Ok(Table { cols, rows: out })
}

/// Finds a pattern in the graph, or creates it, for each row.
pub fn execute_merge<S: StorageBackend, O: Outside>(
    t: Table,
    pattern: &PatternElement,
    on_create: &Option<Vec<SetItem>>,
    on_match: &Option<Vec<SetItem>>,
    ctx: &Ctx<O>,
    storage: &mut S,
) -> (r: Result<Table, CypherError>)
    requires
        old(storage).valid(),
    ensures
        final(storage).valid(),
        writes::table_done(r, final(storage).store()) == merged(
            t@,
            pattern@,
            ast::opt_sets(*on_create),
            ast::opt_sets(*on_match),
            ctx.env(),
            old(storage).store(),
        ),
{
    match pattern {
        PatternElement::Node(np) => execute_merge_node(
            t,
            np,
            on_create,
            on_match,
            ctx,
            storage,
        ),
        PatternElement::Chain { start, elements } => execute_merge_chain(
            t,
            start,
            elements,
            on_create,
            on_match,
            ctx,
            storage,
        ),
        _ => Err(
            CypherError::SemanticError(
                "shortestPath/allShortestPaths cannot be used in MERGE".to_owned(),
            ),
        ),
    }
}

} // verus!
