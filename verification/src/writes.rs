//! The steps of plans that change the graph.
use crate::assoc;
use crate::ast::{
    self, ChainV, ConstraintType, Direction, Expression, ExprV, KeyV, MapKey, MapLiteral, NodePatV,
    NodePattern, PatternChainElement, PropertyTypeKind, RemoveItem, RemoveV, SetItem, SetV,
};
use crate::backend::{self, StorageBackend};
use crate::error::{CypherError, ErrV};
use crate::eval::{bound_value, eval_with_params, Ctx};
use crate::outside::{AnswersV, Outside};
use crate::refusal::{self, Refusal, RefusalV};
use crate::rows::{self, add_opt_col, to_property, Table, TableV};
use crate::semantics::{self, EnvV};
use crate::store::{self, StoreV};
use crate::text::{self, clone_texts};
use crate::value::{
    self, CypherValue, EdgeId, NodeId, PropertyMap, PropertyValue, PropsV, PropV, RecV, Record,
    ValV,
};
use vstd::prelude::*;

verus! {

/// The result of a step that may change the graph, and the graph after it.
pub type DoneV<T> = (Result<T, ErrV>, StoreV);

// ---------------------------------------------------------------------------
// Properties
// ---------------------------------------------------------------------------

/// A value as a property.
pub open spec fn property_from(v: ValV) -> Result<PropV, ErrV> {
    match rows::as_property(v) {
        Some(p) => Ok(p),
        None => if v is Null {
            Err(ErrV::Type("Cannot store null as a property value"@))
        } else {
            Err(ErrV::Type("Cannot store complex value as a property"@))
        },
    }
}

/// Converts a value to a property, if it can be stored.
pub fn cypher_value_to_property(v: &CypherValue) -> (r: Result<PropertyValue, CypherError>)
    ensures
        match r {
            Ok(p) => property_from(v@) == Ok::<PropV, ErrV>(p@),
            Err(e) => property_from(v@) == Err::<PropV, ErrV>(e@),
        },
{
    match to_property(v) {
        Some(p) => Ok(p),
        None => match v {
            CypherValue::Null => Err(
                CypherError::TypeError("Cannot store null as a property value".to_owned()),
            ),
            _ => Err(
                CypherError::TypeError("Cannot store complex value as a property".to_owned()),
            ),
        },
    }
}

/// The view of properties or an error.
pub open spec fn props_outcome(r: Result<PropertyMap, CypherError>) -> Result<PropsV, ErrV> {
    match r {
        Ok(m) => Ok(m@),
        Err(e) => Err(e@),
    }
}

/// The properties of a pattern from the `i`-th entry on. Entries with computed
/// keys are passed over.
pub open spec fn pattern_props(
    entries: Seq<(KeyV, ExprV)>,
    i: int,
    acc: PropsV,
    rec: RecV,
    env: EnvV,
    st: StoreV,
) -> Result<PropsV, ErrV>
    decreases entries.len() - i,
{
    if i < 0 || i >= entries.len() {
        Ok(acc)
    } else {
        match entries[i].0 {
            KeyV::Expression(_) => pattern_props(entries, i + 1, acc, rec, env, st),
            KeyV::Identifier(k) => match semantics::eval(entries[i].1, rec, env.at(i), st) {
                Err(x) => Err(x),
                Ok(v) => match property_from(v) {
                    Err(x) => Err(x),
                    Ok(p) => pattern_props(entries, i + 1, assoc::bind(acc, k, p), rec, env, st),
                },
            },
        }
    }
}

/// The properties that a pattern gives.
pub open spec fn resolved(
    props: Option<Seq<(KeyV, ExprV)>>,
    rec: RecV,
    env: EnvV,
    st: StoreV,
) -> Result<PropsV, ErrV> {
    match props {
        Some(entries) => pattern_props(entries, 0, seq![], rec, env, st),
        None => Ok(seq![]),
    }
}

pub fn resolve_map_literal_to_properties<S: StorageBackend, O: Outside>(
    props: &Option<MapLiteral>,
    rec: &Record,
    ctx: &Ctx<O>,
    storage: &S,
) -> (r: Result<PropertyMap, CypherError>)
    requires
        storage.valid(),
    ensures
        props_outcome(r) == resolved(ast::opt_map(*props), rec@, ctx.env(), storage.store()),
{
    let mut out = PropertyMap::new();
    if let Some(m) = props {
        let mut i: usize = 0;
        while i < m.entries.len()
            invariant
                storage.valid(),
                i <= m.entries.len(),
                ast::opt_map(*props) == Some(m@),
                pattern_props(m@, 0, seq![], rec@, ctx.env(), storage.store()) == pattern_props(
                    m@,
                    i as int,
                    out@,
                    rec@,
                    ctx.env(),
                    storage.store(),
                ),
            decreases m.entries.len() - i,
        {
            if let MapKey::Identifier(k) = &m.entries[i].0 {
                let v = eval_with_params(&m.entries[i].1, rec, &ctx.at(i), storage)?;
                let p = cypher_value_to_property(&v)?;
                out.insert(k.clone(), p);
            }
            i += 1;
        }
    }
    Ok(out)
}

/// The properties that the entries of a map from the `i`-th on are.
pub open spec fn map_props(m: RecV, i: int, acc: PropsV) -> Result<PropsV, ErrV>
    decreases m.len() - i,
{
    if i < 0 || i >= m.len() {
        Ok(acc)
    } else {
        match property_from(m[i].1) {
            Err(x) => Err(x),
            Ok(p) => map_props(m, i + 1, assoc::bind(acc, m[i].0, p)),
        }
    }
}

/// The properties that a value gives: a map, a node, or null for none.
pub open spec fn props_from(v: ValV) -> Result<PropsV, ErrV> {
    match v {
        ValV::Dict(m) => map_props(m, 0, seq![]),
        ValV::Node(n) => Ok(n.properties),
        ValV::Null => Ok(seq![]),
        _ => Err(ErrV::Type("Expected a map value for property assignment"@)),
    }
}

/// Converts a value to properties.
pub fn cypher_value_to_property_map(v: &CypherValue) -> (r: Result<PropertyMap, CypherError>)
    ensures
        props_outcome(r) == props_from(v@),
{
    match v {
        CypherValue::MapValue(m) => {
            let mut out = PropertyMap::new();
            let mut i: usize = 0;
            while i < m.entries.len()
                invariant
                    v@ == ValV::Dict(m@),
                    i <= m.entries.len(),
                    map_props(m@, 0, seq![]) == map_props(m@, i as int, out@),
                decreases m.entries.len() - i,
            {
                let p = cypher_value_to_property(&m.entries[i].1)?;
                out.insert(m.entries[i].0.clone(), p);
                i += 1;
            }
            Ok(out)
        },
        CypherValue::Node(n) => Ok(n.properties.clone()),
        CypherValue::Null => Ok(PropertyMap::new()),
        _ => Err(
            CypherError::TypeError("Expected a map value for property assignment".to_owned()),
        ),
    }
}

// ---------------------------------------------------------------------------
// Rows and the graph
// ---------------------------------------------------------------------------

/// A row with a node as it is stored now.
pub open spec fn with_node(rec: RecV, variable: Seq<char>, id: u64, st: StoreV) -> RecV {
    match store::node_at(st, id) {
        Some(n) => assoc::bind(rec, variable, ValV::Node(n)),
        None => rec,
    }
}

/// A row with a relationship as it is stored now.
pub open spec fn with_edge(rec: RecV, variable: Seq<char>, id: u64, st: StoreV) -> RecV {
    match store::edge_at(st, id) {
        Some(e) => assoc::bind(rec, variable, ValV::Relationship(e)),
        None => rec,
    }
}

/// Binds a node as it is stored now.
pub fn sync_node_in_record<S: StorageBackend>(
    rec: &mut Record,
    variable: &str,
    id: NodeId,
    storage: &S,
)
    requires
        storage.valid(),
    ensures
        final(rec)@ == with_node(old(rec)@, variable@, id, storage.store()),
{
    if let Some(n) = storage.get_node(id) {
        rec.insert(variable.to_owned(), CypherValue::Node(n));
    }
}

/// Binds a relationship as it is stored now.
pub fn sync_edge_in_record<S: StorageBackend>(
    rec: &mut Record,
    variable: &str,
    id: EdgeId,
    storage: &S,
)
    requires
        storage.valid(),
    ensures
        final(rec)@ == with_edge(old(rec)@, variable@, id, storage.store()),
{
    if let Some(e) = storage.get_edge(id) {
        rec.insert(variable.to_owned(), CypherValue::Relationship(e));
    }
}

/// One row without bindings where there are no rows.
pub open spec fn base_rows(rows: Seq<RecV>) -> Seq<RecV> {
    if rows.len() == 0 {
        seq![seq![]]
    } else {
        rows
    }
}

pub fn make_base_rows(rows: Vec<Record>) -> (r: Vec<Record>)
    ensures
        value::recs_view(r@) == base_rows(value::recs_view(rows@)),
{
    if rows.len() == 0 {
        let mut one: Vec<Record> = Vec::new();
        one.push(Record::new());
        proof {
            assert(value::recs_view(one@) =~= seq![seq![]]);
        }
        one
    } else {
        rows
    }
}

/// A row in its place among others.
pub proof fn lemma_recs_update(rows: Seq<Record>, i: int, rec: Record)
    requires
        0 <= i < rows.len(),
    ensures
        value::recs_view(rows.update(i, rec)) == value::recs_view(rows).update(i, rec@),
{
    assert(value::recs_view(rows.update(i, rec)) =~= value::recs_view(rows).update(i, rec@));
}

// ---------------------------------------------------------------------------
// CREATE
// ---------------------------------------------------------------------------

/// The first property from the `i`-th on that breaks a unique constraint of a
/// label.
pub open spec fn unique_breach_of(st: StoreV, label: Seq<char>, props: PropsV, i: int) -> Option<
    RefusalV,
>
    decreases props.len() - i,
{
    if i < 0 || i >= props.len() {
        None
    } else {
        match store::unique_breach(st, label, props[i].0, props[i].1) {
            Some(m) => Some(m),
            None => unique_breach_of(st, label, props, i + 1),
        }
    }
}

/// The same for the labels from the `l`-th on.
pub open spec fn unique_breaches(st: StoreV, labels: Seq<Seq<char>>, l: int, props: PropsV) -> Option<
    RefusalV,
>
    decreases labels.len() - l,
{
    if l < 0 || l >= labels.len() {
        None
    } else {
        match unique_breach_of(st, labels[l], props, 0) {
            Some(m) => Some(m),
            None => unique_breaches(st, labels, l + 1, props),
        }
    }
}

/// Why a node with labels and properties cannot be created.
pub open spec fn constraint_breach(st: StoreV, labels: Seq<Seq<char>>, props: PropsV) -> Option<
    RefusalV,
> {
    match unique_breaches(st, labels, 0, props) {
        Some(m) => Some(m),
        None => match store::not_null_breach(st.not_null, labels, props, 0) {
            Some(m) => Some(RefusalV::Plain(m)),
            None => match store::node_key_breach(st, labels, props, 0) {
                Some(m) => Some(m),
                None => match store::type_breach(st.prop_types, labels, props, 0) {
                    Some(m) => Some(RefusalV::Plain(m)),
                    None => None,
                },
            },
        },
    }
}

fn check_unique<S: StorageBackend>(labels: &Vec<String>, props: &PropertyMap, storage: &S) -> (r:
    Result<(), Refusal>)
    requires
        storage.valid(),
    ensures
        backend::passed_or_denied(
            r,
            unique_breaches(storage.store(), text::texts_view(labels@), 0, props@),
        ),
{
    let mut l: usize = 0;
    while l < labels.len()
        invariant
            storage.valid(),
            l <= labels.len(),
            unique_breaches(storage.store(), text::texts_view(labels@), 0, props@)
                == unique_breaches(
                storage.store(),
                text::texts_view(labels@),
                l as int,
                props@,
            ),
        decreases labels.len() - l,
    {
        let mut i: usize = 0;
        while i < props.entries.len()
            invariant
                storage.valid(),
                l < labels.len(),
                i <= props.entries.len(),
                unique_breaches(storage.store(), text::texts_view(labels@), 0, props@)
                    == unique_breaches(
                    storage.store(),
                    text::texts_view(labels@),
                    l as int,
                    props@,
                ),
                unique_breach_of(storage.store(), labels@[l as int]@, props@, 0)
                    == unique_breach_of(
                    storage.store(),
                    labels@[l as int]@,
                    props@,
                    i as int,
                ),
            decreases props.entries.len() - i,
        {
            storage.check_unique_constraint(
                labels[l].as_str(),
                props.entries[i].0.as_str(),
                &props.entries[i].1,
            )?;
            i += 1;
        }
        l += 1;
    }
    Ok(())
}

/// A reason without a value as a refusal.
fn plainly(r: Result<(), String>) -> (d: Result<(), Refusal>)
    ensures
        match r {
            Ok(_) => d is Ok,
            Err(m) => d matches Err(e) && e@ == RefusalV::Plain(m@),
        },
{
    match r {
        Ok(_) => Ok(()),
        Err(m) => Err(Refusal::Plain(m)),
    }
}

/// Checks all constraints on a node that is to be created.
pub fn check_constraints<S: StorageBackend>(
    labels: &Vec<String>,
    props: &PropertyMap,
    storage: &S,
) -> (r: Result<(), Refusal>)
    requires
        storage.valid(),
    ensures
        backend::passed_or_denied(
            r,
            constraint_breach(storage.store(), text::texts_view(labels@), props@),
        ),
{
    check_unique(labels, props, storage)?;
    plainly(storage.check_not_null_constraints(labels, props))?;
    storage.check_node_key_constraints(labels, props)?;
    plainly(storage.check_property_type_constraints(labels, props))
}

/// A row after the node of a pattern was created.
pub open spec fn create_node_row(rec: RecV, np: NodePatV, env: EnvV, st: StoreV) -> DoneV<RecV> {
    match resolved(np.properties, rec, env, st) {
        Err(x) => (Err(x), st),
        Ok(props) => match constraint_breach(st, np.labels, props) {
            Some(m) => (Err(refusal::refused(env.answers, m)), st),
            None => {
                let after = store::node_created(st, np.labels, props);
                (
                    Ok(
                        match np.variable {
                            Some(v) => with_node(rec, v, st.nodes.len() as u64, after),
                            None => rec,
                        },
                    ),
                    after,
                )
            },
        },
    }
}

pub open spec fn create_node_rows(
    rows: Seq<RecV>,
    i: int,
    np: NodePatV,
    env: EnvV,
    st: StoreV,
) -> DoneV<Seq<RecV>>
    decreases rows.len() - i,
{
    if i < 0 || i >= rows.len() {
        (Ok(rows), st)
    } else {
        match create_node_row(rows[i], np, env.at(i), st) {
            (Err(x), after) => (Err(x), after),
            (Ok(r), after) => create_node_rows(rows.update(i, r), i + 1, np, env, after),
        }
    }
}

/// A table after the node of a pattern was created for each row.
pub open spec fn created_nodes(t: TableV, np: NodePatV, env: EnvV, st: StoreV) -> DoneV<TableV> {
    match create_node_rows(base_rows(t.rows), 0, np, env, st) {
        (Err(x), after) => (Err(x), after),
        (Ok(rows), after) => (
            Ok(TableV { cols: rows::with_opt_col(t.cols, np.variable), rows }),
            after,
        ),
    }
}

/// The view of the result of a step that gives a table.
pub open spec fn table_done(r: Result<Table, CypherError>, st: StoreV) -> DoneV<TableV> {
    match r {
        Ok(t) => (Ok(t@), st),
        Err(e) => (Err(e@), st),
    }
}

fn execute_create_node_row<S: StorageBackend, O: Outside>(
    rec: &mut Record,
    np: &NodePattern,
    ctx: &Ctx<O>,
    storage: &mut S,
) -> (r: Result<(), CypherError>)
    requires
        old(storage).valid(),
    ensures
        final(storage).valid(),
        r is Ok ==> create_node_row(old(rec)@, np@, ctx.env(), old(storage).store()) == (
            Ok::<RecV, ErrV>(final(rec)@),
            final(storage).store(),
        ),
        r matches Err(e) ==> create_node_row(old(rec)@, np@, ctx.env(), old(storage).store()) == (
            Err::<RecV, ErrV>(e@),
            final(storage).store(),
        ),
{
    let props = resolve_map_literal_to_properties(&np.properties, rec, ctx, storage)?;
    match check_constraints(&np.labels, &props, storage) {
        Ok(_) => {},
        Err(m) => {
            return Err(m.error(ctx.outside));
        },
    }
    let id = storage.create_node(clone_texts(&np.labels), props);
    if let Some(v) = &np.variable {
        sync_node_in_record(rec, v.as_str(), id, storage);
    }
    Ok(())
}

/// Creates the node of a pattern for each row.
pub fn execute_create_node<S: StorageBackend, O: Outside>(
    t: Table,
    np: &NodePattern,
    ctx: &Ctx<O>,
    storage: &mut S,
) -> (r: Result<Table, CypherError>)
    requires
        old(storage).valid(),
    ensures
        final(storage).valid(),
        table_done(r, final(storage).store()) == created_nodes(
            t@,
            np@,
            ctx.env(),
            old(storage).store(),
        ),
{
    let mut cols = t.cols;
    add_opt_col(&mut cols, &np.variable);
    let mut rows = make_base_rows(t.rows);
    let ghost first = value::recs_view(rows@);
    let ghost st0 = storage.store();
    let mut i: usize = 0;
    while i < rows.len()
        invariant
            storage.valid(),
            st0 == old(storage).store(),
            first == base_rows(t@.rows),
            i <= rows.len(),
            create_node_rows(first, 0, np@, ctx.env(), st0) == create_node_rows(
                value::recs_view(rows@),
                i as int,
                np@,
                ctx.env(),
                storage.store(),
            ),
        decreases rows.len() - i,
    {
        let ghost before = rows@;
        execute_create_node_row(&mut rows[i], np, &ctx.at(i), storage)?;
        proof {
            assert(rows@ =~= before.update(i as int, rows@[i as int]));
            lemma_recs_update(before, i as int, rows@[i as int]);
        }
        i += 1;
    }
    Ok(Table { cols, rows })
}

/// The node of a pattern: the one that its variable is bound to, or a new one.
pub open spec fn node_for(rec: RecV, np: NodePatV, env: EnvV, st: StoreV) -> DoneV<(RecV, u64)> {
    match semantics::bound_to(np.variable, rec) {
        Some(ValV::Node(n)) => (Ok((rec, n.id)), st),
        _ => match resolved(np.properties, rec, env, st) {
            Err(x) => (Err(x), st),
            Ok(props) => {
                let id = st.nodes.len() as u64;
                let after = store::node_created(st, np.labels, props);
                (
                    Ok(
                        (
                            match np.variable {
                                Some(v) => with_node(rec, v, id, after),
                                None => rec,
                            },
                            id,
                        ),
                    ),
                    after,
                )
            },
        },
    }
}

/// A variable is bound to a relationship.
pub open spec fn names_edge(variable: Option<Seq<char>>, rec: RecV) -> bool {
    semantics::bound_to(variable, rec) matches Some(ValV::Relationship(_))
}

/// A row after one step of a chain was created, from node `prev` on. A
/// relationship that `given` binds is there already.
pub open spec fn create_step(
    rec: RecV,
    prev: u64,
    step: ChainV,
    given: RecV,
    env: EnvV,
    st: StoreV,
) -> DoneV<(RecV, u64)> {
    match node_for(rec, step.node, env.at(0), st) {
        (Err(x), after) => (Err(x), after),
        (Ok((rec1, dst)), st1) => {
            if names_edge(step.relationship.variable, given) {
                (Ok((rec1, dst)), st1)
            } else {
                match resolved(step.relationship.properties, rec1, env.at(1), st1) {
                    Err(x) => (Err(x), st1),
                    Ok(props) => {
                        let label = if step.relationship.rel_types.len() > 0 {
                            step.relationship.rel_types[0]
                        } else {
                            seq![]
                        };
                        let (from, to) = match step.relationship.direction {
                            Direction::Incoming => (dst, prev),
                            _ => (prev, dst),
                        };
                        match store::edge_refusal(st1, from, to) {
                            Some(m) => (Err(ErrV::Runtime(m)), st1),
                            None => {
                                let id = st1.edges.len() as u64;
                                let st2 = store::edge_created(st1, label, from, to, props);
                                (
                                    Ok(
                                        (
                                            match step.relationship.variable {
                                                Some(v) => with_edge(rec1, v, id, st2),
                                                None => rec1,
                                            },
                                            dst,
                                        ),
                                    ),
                                    st2,
                                )
                            },
                        }
                    },
                }
            }
        },
    }
}

/// A row after the steps of a chain from the `i`-th on were created.
pub open spec fn create_steps(
    rec: RecV,
    prev: u64,
    chain: Seq<ChainV>,
    i: int,
    given: RecV,
    env: EnvV,
    st: StoreV,
) -> DoneV<RecV>
    decreases chain.len() - i,
{
    if i < 0 || i >= chain.len() {
        (Ok(rec), st)
    } else {
        match create_step(rec, prev, chain[i], given, env.at(i), st) {
            (Err(x), after) => (Err(x), after),
            (Ok((rec1, dst)), after) => create_steps(rec1, dst, chain, i + 1, given, env, after),
        }
    }
}

/// A row after a path was created: every node that is not bound yet, and every
/// relationship that `given` does not bind.
pub open spec fn create_path_row(
    rec: RecV,
    start: NodePatV,
    chain: Seq<ChainV>,
    given: RecV,
    env: EnvV,
    st: StoreV,
) -> DoneV<RecV> {
    match node_for(rec, start, env.at(0), st) {
        (Err(x), after) => (Err(x), after),
        (Ok((rec1, id)), st1) => create_steps(rec1, id, chain, 0, given, env.at(1), st1),
    }
}

pub open spec fn create_path_rows(
    rows: Seq<RecV>,
    i: int,
    start: NodePatV,
    chain: Seq<ChainV>,
    env: EnvV,
    st: StoreV,
) -> DoneV<Seq<RecV>>
    decreases rows.len() - i,
{
    if i < 0 || i >= rows.len() {
        (Ok(rows), st)
    } else {
        match create_path_row(rows[i], start, chain, seq![], env.at(i), st) {
            (Err(x), after) => (Err(x), after),
            (Ok(r), after) => create_path_rows(rows.update(i, r), i + 1, start, chain, env, after),
        }
    }
}

/// The columns with the variables of a chain from the `i`-th step on.
pub open spec fn chain_cols(cols: Seq<Seq<char>>, chain: Seq<ChainV>, i: int) -> Seq<Seq<char>>
    decreases chain.len() - i,
{
    if i < 0 || i >= chain.len() {
        cols
    } else {
        chain_cols(
            rows::with_opt_col(
                rows::with_opt_col(cols, chain[i].relationship.variable),
                chain[i].node.variable,
            ),
            chain,
            i + 1,
        )
    }
}

/// A table after a path was created for each row.
pub open spec fn created_paths(
    t: TableV,
    start: NodePatV,
    chain: Seq<ChainV>,
    env: EnvV,
    st: StoreV,
) -> DoneV<TableV> {
    match create_path_rows(base_rows(t.rows), 0, start, chain, env, st) {
        (Err(x), after) => (Err(x), after),
        (Ok(rows), after) => (
            Ok(
                TableV {
                    cols: chain_cols(rows::with_opt_col(t.cols, start.variable), chain, 0),
                    rows,
                },
            ),
            after,
        ),
    }
}

fn get_or_create_node<S: StorageBackend, O: Outside>(
    rec: &mut Record,
    np: &NodePattern,
    ctx: &Ctx<O>,
    storage: &mut S,
) -> (r: Result<NodeId, CypherError>)
    requires
        old(storage).valid(),
    ensures
        final(storage).valid(),
        r matches Ok(id) ==> node_for(old(rec)@, np@, ctx.env(), old(storage).store()) == (
            Ok::<(RecV, u64), ErrV>((final(rec)@, id)),
            final(storage).store(),
        ),
        r matches Err(e) ==> node_for(old(rec)@, np@, ctx.env(), old(storage).store()) == (
            Err::<(RecV, u64), ErrV>(e@),
            final(storage).store(),
        ),
{
    if let Some(CypherValue::Node(n)) = bound_value(&np.variable, rec) {
        return Ok(n.id);
    }
    let props = resolve_map_literal_to_properties(&np.properties, rec, ctx, storage)?;
    let id = storage.create_node(clone_texts(&np.labels), props);
    if let Some(v) = &np.variable {
        sync_node_in_record(rec, v.as_str(), id, storage);
    }
    Ok(id)
}

fn execute_create_step<S: StorageBackend, O: Outside>(
    rec: &mut Record,
    prev: NodeId,
    step: &PatternChainElement,
    given: &Record,
    ctx: &Ctx<O>,
    storage: &mut S,
) -> (r: Result<NodeId, CypherError>)
    requires
        old(storage).valid(),
    ensures
        final(storage).valid(),
        r matches Ok(id) ==> create_step(
            old(rec)@,
            prev,
            step@,
            given@,
            ctx.env(),
            old(storage).store(),
        ) == (Ok::<(RecV, u64), ErrV>((final(rec)@, id)), final(storage).store()),
        r matches Err(e) ==> create_step(
            old(rec)@,
            prev,
            step@,
            given@,
            ctx.env(),
            old(storage).store(),
        ) == (Err::<(RecV, u64), ErrV>(e@), final(storage).store()),
{
    let dst = get_or_create_node(rec, &step.node, &ctx.at(0), storage)?;
    if let Some(CypherValue::Relationship(_)) = bound_value(&step.relationship.variable, given) {
        return Ok(dst);
    }
    let props = resolve_map_literal_to_properties(
        &step.relationship.properties,
        rec,
        &ctx.at(1),
        storage,
    )?;
    let label = if step.relationship.rel_types.len() > 0 {
        step.relationship.rel_types[0].clone()
    } else {
        String::new()
    };
    proof {
        if step.relationship.rel_types@.len() == 0 {
            assert(label@ =~= Seq::<char>::empty());
        }
    }
    let (from, to) = match step.relationship.direction {
        Direction::Incoming => (dst, prev),
        _ => (prev, dst),
    };
    match storage.create_edge(label, from, to, props) {
        Err(m) => Err(CypherError::RuntimeError(m)),
        Ok(id) => {
            if let Some(v) = &step.relationship.variable {
                sync_edge_in_record(rec, v.as_str(), id, storage);
            }
            Ok(dst)
        },
    }
}

/// Creates a path for one row.
pub fn execute_create_path_row<S: StorageBackend, O: Outside>(
    rec: &mut Record,
    start: &NodePattern,
    chain: &Vec<PatternChainElement>,
    given: &Record,
    ctx: &Ctx<O>,
    storage: &mut S,
) -> (r: Result<(), CypherError>)
    requires
        old(storage).valid(),
    ensures
        final(storage).valid(),
        r is Ok ==> create_path_row(
            old(rec)@,
            start@,
            ast::chain_view(chain@),
            given@,
            ctx.env(),
            old(storage).store(),
        ) == (Ok::<RecV, ErrV>(final(rec)@), final(storage).store()),
        r matches Err(e) ==> create_path_row(
            old(rec)@,
            start@,
            ast::chain_view(chain@),
            given@,
            ctx.env(),
            old(storage).store(),
        ) == (Err::<RecV, ErrV>(e@), final(storage).store()),
{
    let mut prev = get_or_create_node(rec, start, &ctx.at(0), storage)?;
    let here = ctx.at(1);
    let ghost want = create_path_row(
        old(rec)@,
        start@,
        ast::chain_view(chain@),
        given@,
        ctx.env(),
        old(storage).store(),
    );
    let mut i: usize = 0;
    while i < chain.len()
        invariant
            storage.valid(),
            want == create_path_row(
                old(rec)@,
                start@,
                ast::chain_view(chain@),
                given@,
                ctx.env(),
                old(storage).store(),
            ),
            i <= chain.len(),
            want == create_steps(
                rec@,
                prev,
                ast::chain_view(chain@),
                i as int,
                given@,
                here.env(),
                storage.store(),
            ),
        decreases chain.len() - i,
    {
        proof {
            assert(ast::chain_view(chain@)[i as int] == chain@[i as int]@);
        }
        prev = execute_create_step(rec, prev, &chain[i], given, &here.at(i), storage)?;
        i += 1;
    }
    Ok(())
}

pub fn add_chain_cols(cols: &mut Vec<String>, chain: &Vec<PatternChainElement>)
    ensures
        text::texts_view(final(cols)@) == chain_cols(
            text::texts_view(old(cols)@),
            ast::chain_view(chain@),
            0,
        ),
{
    let mut i: usize = 0;
    while i < chain.len()
        invariant
            i <= chain.len(),
            chain_cols(text::texts_view(old(cols)@), ast::chain_view(chain@), 0) == chain_cols(
                text::texts_view(cols@),
                ast::chain_view(chain@),
                i as int,
            ),
        decreases chain.len() - i,
    {
        proof {
            assert(ast::chain_view(chain@)[i as int] == chain@[i as int]@);
        }
        add_opt_col(cols, &chain[i].relationship.variable);
        add_opt_col(cols, &chain[i].node.variable);
        i += 1;
    }
}

/// Creates a path for each row.
pub fn execute_create_path<S: StorageBackend, O: Outside>(
    t: Table,
    start: &NodePattern,
    chain: &Vec<PatternChainElement>,
    ctx: &Ctx<O>,
    storage: &mut S,
) -> (r: Result<Table, CypherError>)
    requires
        old(storage).valid(),
    ensures
        final(storage).valid(),
        table_done(r, final(storage).store()) == created_paths(
            t@,
            start@,
            ast::chain_view(chain@),
            ctx.env(),
            old(storage).store(),
        ),
{
    let mut cols = t.cols;
    add_opt_col(&mut cols, &start.variable);
    add_chain_cols(&mut cols, chain);
    let mut rows = make_base_rows(t.rows);
    let none = Record::new();
    let ghost first = value::recs_view(rows@);
    let ghost st0 = storage.store();
    let mut i: usize = 0;
    while i < rows.len()
        invariant
            storage.valid(),
            st0 == old(storage).store(),
            first == base_rows(t@.rows),
            none@ == RecV::empty(),
            i <= rows.len(),
            create_path_rows(first, 0, start@, ast::chain_view(chain@), ctx.env(), st0)
                == create_path_rows(
                value::recs_view(rows@),
                i as int,
                start@,
                ast::chain_view(chain@),
                ctx.env(),
                storage.store(),
            ),
        decreases rows.len() - i,
    {
        let ghost before = rows@;
        execute_create_path_row(&mut rows[i], start, chain, &none, &ctx.at(i), storage)?;
        proof {
            assert(rows@ =~= before.update(i as int, rows@[i as int]));
            lemma_recs_update(before, i as int, rows@[i as int]);
        }
        i += 1;
    }
    Ok(Table { cols, rows })
}

// ---------------------------------------------------------------------------
// SET
// ---------------------------------------------------------------------------

/// What a variable is bound to that can be changed.
pub enum Entity {
    Node(NodeId),
    Relationship(EdgeId),
    Neither,
}

/// The node or relationship that a variable is bound to.
pub open spec fn entity_of(rec: RecV, variable: Seq<char>) -> Entity {
    match assoc::lookup(rec, variable) {
        Some(ValV::Node(n)) => Entity::Node(n.id),
        Some(ValV::Relationship(e)) => Entity::Relationship(e.id),
        _ => Entity::Neither,
    }
}

pub fn find_entity(rec: &Record, variable: &str) -> (r: Entity)
    ensures
        r == entity_of(rec@, variable@),
{
    match rec.get(variable) {
        Some(CypherValue::Node(n)) => Entity::Node(n.id),
        Some(CypherValue::Relationship(e)) => Entity::Relationship(e.id),
        _ => Entity::Neither,
    }
}

/// The graph without a property.
pub open spec fn property_removed(x: Entity, k: Seq<char>, st: StoreV) -> StoreV {
    match x {
        Entity::Node(id) => store::node_prop_removed(st, id, k),
        Entity::Relationship(id) => store::edge_prop_removed(st, id, k),
        Entity::Neither => st,
    }
}

/// The graph with a property.
pub open spec fn property_set(x: Entity, k: Seq<char>, p: PropV, st: StoreV) -> StoreV {
    match x {
        Entity::Node(id) => store::node_prop_set(st, id, k, p),
        Entity::Relationship(id) => store::edge_prop_set(st, id, k, p),
        Entity::Neither => st,
    }
}

/// The graph with all properties replaced, or with more of them.
pub open spec fn properties_set(x: Entity, props: PropsV, merge: bool, st: StoreV) -> StoreV {
    match x {
        Entity::Node(id) => if merge {
            store::node_props_merged(st, id, props)
        } else {
            store::node_props_set(st, id, props)
        },
        Entity::Relationship(id) => if merge {
            store::edge_props_merged(st, id, props)
        } else {
            store::edge_props_set(st, id, props)
        },
        Entity::Neither => st,
    }
}

/// A row with a node or relationship as it is stored now.
pub open spec fn refreshed(rec: RecV, variable: Seq<char>, x: Entity, st: StoreV) -> RecV {
    match x {
        Entity::Node(id) => with_node(rec, variable, id, st),
        Entity::Relationship(id) => with_edge(rec, variable, id, st),
        Entity::Neither => rec,
    }
}

/// A row after an item of SET. Setting a property to null removes it.
pub open spec fn set_item(item: SetV, rec: RecV, env: EnvV, st: StoreV) -> DoneV<RecV> {
    match item {
        SetV::Property { variable, property, expression } => match semantics::eval(
            expression,
            rec,
            env,
            st,
        ) {
            Err(x) => (Err(x), st),
            Ok(v) => {
                let x = entity_of(rec, variable);
                if v is Null {
                    let after = property_removed(x, property, st);
                    (Ok(refreshed(rec, variable, x, after)), after)
                } else {
                    match property_from(v) {
                        Err(e) => (Err(e), st),
                        Ok(p) => {
                            let after = property_set(x, property, p, st);
                            (Ok(refreshed(rec, variable, x, after)), after)
                        },
                    }
                }
            },
        },
        SetV::AllProperties { variable, expression } => set_properties(
            variable,
            expression,
            false,
            rec,
            env,
            st,
        ),
        SetV::MergeProperties { variable, expression } => set_properties(
            variable,
            expression,
            true,
            rec,
            env,
            st,
        ),
        SetV::Label { variable, labels } => match entity_of(rec, variable) {
            Entity::Node(id) => {
                let after = store::node_labels_added(st, id, labels);
                (Ok(with_node(rec, variable, id, after)), after)
            },
            _ => (Ok(rec), st),
        },
    }
}

pub open spec fn set_properties(
    variable: Seq<char>,
    e: ExprV,
    merge: bool,
    rec: RecV,
    env: EnvV,
    st: StoreV,
) -> DoneV<RecV> {
    match semantics::eval(e, rec, env, st) {
        Err(x) => (Err(x), st),
        Ok(v) => match props_from(v) {
            Err(x) => (Err(x), st),
            Ok(props) => {
                let x = entity_of(rec, variable);
                let after = properties_set(x, props, merge, st);
                (Ok(refreshed(rec, variable, x, after)), after)
            },
        },
    }
}

/// A row after the items from the `i`-th on.
pub open spec fn set_items(items: Seq<SetV>, i: int, rec: RecV, env: EnvV, st: StoreV) -> DoneV<RecV>
    decreases items.len() - i,
{
    if i < 0 || i >= items.len() {
        (Ok(rec), st)
    } else {
        match set_item(items[i], rec, env.at(i), st) {
            (Err(x), after) => (Err(x), after),
            (Ok(r), after) => set_items(items, i + 1, r, env, after),
        }
    }
}

pub open spec fn set_rows(
    rows: Seq<RecV>,
    i: int,
    items: Seq<SetV>,
    env: EnvV,
    st: StoreV,
) -> DoneV<Seq<RecV>>
    decreases rows.len() - i,
{
    if i < 0 || i >= rows.len() {
        (Ok(rows), st)
    } else {
        match set_items(items, 0, rows[i], env.at(i), st) {
            (Err(x), after) => (Err(x), after),
            (Ok(r), after) => set_rows(rows.update(i, r), i + 1, items, env, after),
        }
    }
}

fn refresh<S: StorageBackend>(rec: &mut Record, variable: &str, x: &Entity, storage: &S)
    requires
        storage.valid(),
    ensures
        final(rec)@ == refreshed(old(rec)@, variable@, *x, storage.store()),
{
    match x {
        Entity::Node(id) => sync_node_in_record(rec, variable, *id, storage),
        Entity::Relationship(id) => sync_edge_in_record(rec, variable, *id, storage),
        Entity::Neither => {},
    }
}

fn remove_property<S: StorageBackend>(x: &Entity, k: &str, storage: &mut S)
    requires
        old(storage).valid(),
    ensures
        final(storage).valid(),
        final(storage).store() == property_removed(*x, k@, old(storage).store()),
{
    match x {
        Entity::Node(id) => storage.remove_node_property(*id, k),
        Entity::Relationship(id) => storage.remove_edge_property(*id, k),
        Entity::Neither => {},
    }
}

fn set_property<S: StorageBackend>(x: &Entity, k: &str, p: PropertyValue, storage: &mut S)
    requires
        old(storage).valid(),
    ensures
        final(storage).valid(),
        final(storage).store() == property_set(*x, k@, p@, old(storage).store()),
{
    match x {
        Entity::Node(id) => storage.set_node_property(*id, k.to_owned(), p),
        Entity::Relationship(id) => storage.set_edge_property(*id, k.to_owned(), p),
        Entity::Neither => {},
    }
}

fn replace_properties<S: StorageBackend>(
    x: &Entity,
    props: PropertyMap,
    merge: bool,
    storage: &mut S,
)
    requires
        old(storage).valid(),
    ensures
        final(storage).valid(),
        final(storage).store() == properties_set(*x, props@, merge, old(storage).store()),
{
    match x {
        Entity::Node(id) => if merge {
            storage.merge_node_properties(*id, props)
        } else {
            storage.set_node_all_properties(*id, props)
        },
        Entity::Relationship(id) => if merge {
            storage.merge_edge_properties(*id, props)
        } else {
            storage.set_edge_all_properties(*id, props)
        },
        Entity::Neither => {},
    }
}

fn apply_properties<S: StorageBackend, O: Outside>(
    variable: &str,
    e: &Expression,
    merge: bool,
    rec: &mut Record,
    ctx: &Ctx<O>,
    storage: &mut S,
) -> (r: Result<(), CypherError>)
    requires
        old(storage).valid(),
    ensures
        final(storage).valid(),
        r is Ok ==> set_properties(
            variable@,
            e@,
            merge,
            old(rec)@,
            ctx.env(),
            old(storage).store(),
        ) == (Ok::<RecV, ErrV>(final(rec)@), final(storage).store()),
        r matches Err(x) ==> set_properties(
            variable@,
            e@,
            merge,
            old(rec)@,
            ctx.env(),
            old(storage).store(),
        ) == (Err::<RecV, ErrV>(x@), final(storage).store()),
{
    let v = eval_with_params(e, rec, ctx, storage)?;
    let props = cypher_value_to_property_map(&v)?;
    let x = find_entity(rec, variable);
    replace_properties(&x, props, merge, storage);
    refresh(rec, variable, &x, storage);
    Ok(())
}

/// Applies an item of SET to a row.
pub fn apply_set_item<S: StorageBackend, O: Outside>(
    item: &SetItem,
    rec: &mut Record,
    ctx: &Ctx<O>,
    storage: &mut S,
) -> (r: Result<(), CypherError>)
    requires
        old(storage).valid(),
    ensures
        final(storage).valid(),
        r is Ok ==> set_item(item@, old(rec)@, ctx.env(), old(storage).store()) == (
            Ok::<RecV, ErrV>(final(rec)@),
            final(storage).store(),
        ),
        r matches Err(e) ==> set_item(item@, old(rec)@, ctx.env(), old(storage).store()) == (
            Err::<RecV, ErrV>(e@),
            final(storage).store(),
        ),
{
    match item {
        SetItem::Property { variable, property, expression } => {
            let v = eval_with_params(expression, rec, ctx, storage)?;
            let x = find_entity(rec, variable.as_str());
            match &v {
                CypherValue::Null => {
                    remove_property(&x, property.as_str(), storage);
                },
                other => {
                    let p = cypher_value_to_property(other)?;
                    set_property(&x, property.as_str(), p, storage);
                },
            }
            refresh(rec, variable.as_str(), &x, storage);
            Ok(())
        },
        SetItem::AllProperties { variable, expression } => apply_properties(
            variable.as_str(),
            expression,
            false,
            rec,
            ctx,
            storage,
        ),
        SetItem::MergeProperties { variable, expression } => apply_properties(
            variable.as_str(),
            expression,
            true,
            rec,
            ctx,
            storage,
        ),
        SetItem::Label { variable, labels } => {
            match find_entity(rec, variable.as_str()) {
                Entity::Node(id) => {
                    storage.add_node_labels(id, labels);
                    sync_node_in_record(rec, variable.as_str(), id, storage);
                },
                _ => {},
            }
            Ok(())
        },
    }
}

/// Applies the items of SET to a row.
pub fn apply_set_items<S: StorageBackend, O: Outside>(
    items: &Vec<SetItem>,
    rec: &mut Record,
    ctx: &Ctx<O>,
    storage: &mut S,
) -> (r: Result<(), CypherError>)
    requires
        old(storage).valid(),
    ensures
        final(storage).valid(),
        r is Ok ==> set_items(
            ast::sets_view(items@),
            0,
            old(rec)@,
            ctx.env(),
            old(storage).store(),
        ) == (Ok::<RecV, ErrV>(final(rec)@), final(storage).store()),
        r matches Err(e) ==> set_items(
            ast::sets_view(items@),
            0,
            old(rec)@,
            ctx.env(),
            old(storage).store(),
        ) == (Err::<RecV, ErrV>(e@), final(storage).store()),
{
    let ghost want = set_items(
        ast::sets_view(items@),
        0,
        old(rec)@,
        ctx.env(),
        old(storage).store(),
    );
    let mut i: usize = 0;
    while i < items.len()
        invariant
            storage.valid(),
            want == set_items(
                ast::sets_view(items@),
                0,
                old(rec)@,
                ctx.env(),
                old(storage).store(),
            ),
            i <= items.len(),
            want == set_items(
                ast::sets_view(items@),
                i as int,
                rec@,
                ctx.env(),
                storage.store(),
            ),
        decreases items.len() - i,
    {
        apply_set_item(&items[i], rec, &ctx.at(i), storage)?;
        i += 1;
    }
    Ok(())
}

/// A table after SET.
pub open spec fn set_table(t: TableV, items: Seq<SetV>, env: EnvV, st: StoreV) -> DoneV<TableV> {
    match set_rows(t.rows, 0, items, env, st) {
        (Err(x), after) => (Err(x), after),
        (Ok(rows), after) => (Ok(TableV { rows, ..t }), after),
    }
}

pub fn execute_set<S: StorageBackend, O: Outside>(
    t: Table,
    items: &Vec<SetItem>,
    ctx: &Ctx<O>,
    storage: &mut S,
) -> (r: Result<Table, CypherError>)
    requires
        old(storage).valid(),
    ensures
        final(storage).valid(),
        table_done(r, final(storage).store()) == set_table(
            t@,
            ast::sets_view(items@),
            ctx.env(),
            old(storage).store(),
        ),
{
    let mut rows = t.rows;
    let ghost st0 = storage.store();
    let mut i: usize = 0;
    while i < rows.len()
        invariant
            storage.valid(),
            st0 == old(storage).store(),
            i <= rows.len(),
            set_rows(t@.rows, 0, ast::sets_view(items@), ctx.env(), st0) == set_rows(
                value::recs_view(rows@),
                i as int,
                ast::sets_view(items@),
                ctx.env(),
                storage.store(),
            ),
        decreases rows.len() - i,
    {
        let ghost before = rows@;
        apply_set_items(items, &mut rows[i], &ctx.at(i), storage)?;
        proof {
            assert(rows@ =~= before.update(i as int, rows@[i as int]));
            lemma_recs_update(before, i as int, rows@[i as int]);
        }
        i += 1;
    }
    Ok(Table { cols: t.cols, rows })
}

// ---------------------------------------------------------------------------
// REMOVE
// ---------------------------------------------------------------------------

/// A row and the graph after an item of REMOVE.
pub open spec fn remove_item(item: RemoveV, rec: RecV, st: StoreV) -> (RecV, StoreV) {
    match item {
        RemoveV::Property { variable, property } => {
            let x = entity_of(rec, variable);
            let after = property_removed(x, property, st);
            (refreshed(rec, variable, x, after), after)
        },
        RemoveV::Label { variable, labels } => match entity_of(rec, variable) {
            Entity::Node(id) => {
                let after = store::node_labels_removed(st, id, labels);
                (with_node(rec, variable, id, after), after)
            },
            _ => (rec, st),
        },
    }
}

pub open spec fn remove_items(items: Seq<RemoveV>, i: int, rec: RecV, st: StoreV) -> (RecV, StoreV)
    decreases items.len() - i,
{
    if i < 0 || i >= items.len() {
        (rec, st)
    } else {
        let (r, after) = remove_item(items[i], rec, st);
        remove_items(items, i + 1, r, after)
    }
}

pub open spec fn remove_rows(rows: Seq<RecV>, i: int, items: Seq<RemoveV>, st: StoreV) -> (
    Seq<RecV>,
    StoreV,
)
    decreases rows.len() - i,
{
    if i < 0 || i >= rows.len() {
        (rows, st)
    } else {
        let (r, after) = remove_items(items, 0, rows[i], st);
        remove_rows(rows.update(i, r), i + 1, items, after)
    }
}

/// A table after REMOVE.
pub open spec fn remove_table(t: TableV, items: Seq<RemoveV>, st: StoreV) -> (TableV, StoreV) {
    let (rows, after) = remove_rows(t.rows, 0, items, st);
    (TableV { rows, ..t }, after)
}

fn apply_remove_item<S: StorageBackend>(item: &RemoveItem, rec: &mut Record, storage: &mut S)
    requires
        old(storage).valid(),
    ensures
        final(storage).valid(),
        (final(rec)@, final(storage).store()) == remove_item(
            item@,
            old(rec)@,
            old(storage).store(),
        ),
{
    match item {
        RemoveItem::Property { variable, property } => {
            let x = find_entity(rec, variable.as_str());
            remove_property(&x, property.as_str(), storage);
            refresh(rec, variable.as_str(), &x, storage);
        },
        RemoveItem::Label { variable, labels } => {
            match find_entity(rec, variable.as_str()) {
                Entity::Node(id) => {
                    storage.remove_node_labels(id, labels);
                    sync_node_in_record(rec, variable.as_str(), id, storage);
                },
                _ => {},
            }
        },
    }
}

fn apply_remove_items<S: StorageBackend>(
    items: &Vec<RemoveItem>,
    rec: &mut Record,
    storage: &mut S,
)
    requires
        old(storage).valid(),
    ensures
        final(storage).valid(),
        (final(rec)@, final(storage).store()) == remove_items(
            ast::removes_view(items@),
            0,
            old(rec)@,
            old(storage).store(),
        ),
{
    let ghost want = remove_items(ast::removes_view(items@), 0, rec@, storage.store());
    let mut i: usize = 0;
    while i < items.len()
        invariant
            storage.valid(),
            i <= items.len(),
            want == remove_items(
                ast::removes_view(items@),
                0,
                old(rec)@,
                old(storage).store(),
            ),
            want == remove_items(ast::removes_view(items@), i as int, rec@, storage.store()),
        decreases items.len() - i,
    {
        apply_remove_item(&items[i], rec, storage);
        i += 1;
    }
}

pub fn execute_remove<S: StorageBackend>(t: Table, items: &Vec<RemoveItem>, storage: &mut S) -> (r:
    Table)
    requires
        old(storage).valid(),
    ensures
        final(storage).valid(),
        (r@, final(storage).store()) == remove_table(
            t@,
            ast::removes_view(items@),
            old(storage).store(),
        ),
{
    let mut rows = t.rows;
    let ghost want = remove_rows(t@.rows, 0, ast::removes_view(items@), storage.store());
    let mut i: usize = 0;
    while i < rows.len()
        invariant
            storage.valid(),
            i <= rows.len(),
            want == remove_rows(
                t@.rows,
                0,
                ast::removes_view(items@),
                old(storage).store(),
            ),
            want == remove_rows(
                value::recs_view(rows@),
                i as int,
                ast::removes_view(items@),
                storage.store(),
            ),
        decreases rows.len() - i,
    {
        let ghost before = rows@;
        apply_remove_items(items, &mut rows[i], storage);
        proof {
            assert(rows@ =~= before.update(i as int, rows@[i as int]));
            lemma_recs_update(before, i as int, rows@[i as int]);
        }
        i += 1;
    }
    Table { cols: t.cols, rows }
}

// ---------------------------------------------------------------------------
// CREATE CONSTRAINT
// ---------------------------------------------------------------------------

/// The name of a property type.
pub open spec fn kind_name(k: PropertyTypeKind) -> Seq<char> {
    match k {
        PropertyTypeKind::Boolean => "BOOLEAN"@,
        PropertyTypeKind::String => "STRING"@,
        PropertyTypeKind::Integer => "INTEGER"@,
        PropertyTypeKind::Float => "FLOAT"@,
    }
}

pub fn property_type_name(k: PropertyTypeKind) -> (r: &'static str)
    ensures
        r@ == kind_name(k),
{
    match k {
        PropertyTypeKind::Boolean => "BOOLEAN",
        PropertyTypeKind::String => "STRING",
        PropertyTypeKind::Integer => "INTEGER",
        PropertyTypeKind::Float => "FLOAT",
    }
}

/// A constraint that is added unless the graph breaks it.
pub open spec fn constrained(
    reason: Option<RefusalV>,
    ans: AnswersV,
    before: StoreV,
    after: StoreV,
) -> DoneV<TableV> {
    match reason {
        Some(m) => (Err(refusal::refused(ans, m)), before),
        None => (Ok(TableV { cols: seq![], rows: seq![] }), after),
    }
}

/// A reason without a value.
pub open spec fn plain(reason: Option<Seq<char>>) -> Option<RefusalV> {
    match reason {
        Some(m) => Some(RefusalV::Plain(m)),
        None => None,
    }
}

/// CREATE CONSTRAINT: the table without columns and rows, and the graph with
/// the constraint.
pub open spec fn constraint_created(
    label: Seq<char>,
    ps: Seq<Seq<char>>,
    kind: ConstraintType,
    ans: AnswersV,
    st: StoreV,
) -> DoneV<TableV> {
    match kind {
        ConstraintType::Unique => if ps.len() == 0 {
            (Err(ErrV::Semantic("UNIQUE constraint requires a property"@)), st)
        } else {
            constrained(
                store::unique_refusal(st, label, ps[0]),
                ans,
                st,
                store::unique_added(st, label, ps[0]),
            )
        },
        ConstraintType::NotNull => if ps.len() == 0 {
            (Err(ErrV::Semantic("NOT NULL constraint requires a property"@)), st)
        } else {
            constrained(
                plain(store::not_null_refusal(st, label, ps[0])),
                ans,
                st,
                store::not_null_added(st, label, ps[0]),
            )
        },
        ConstraintType::NodeKey => constrained(
            plain(store::node_key_refusal(st, label, ps)),
            ans,
            st,
            store::node_key_added(st, label, ps),
        ),
        ConstraintType::PropertyType(k) => if ps.len() == 0 {
            (Err(ErrV::Semantic("PROPERTY TYPE constraint requires a property"@)), st)
        } else {
            constrained(
                plain(store::type_refusal(st, label, ps[0], kind_name(k))),
                ans,
                st,
                store::type_added(st, label, ps[0], kind_name(k)),
            )
        },
    }
}

/// Adds a constraint to the graph.
pub fn execute_create_constraint<S: StorageBackend, O: Outside>(
    label: &str,
    ps: &Vec<String>,
    kind: ConstraintType,
    outside: &O,
    storage: &mut S,
) -> (r: Result<Table, CypherError>)
    requires
        old(storage).valid(),
    ensures
        final(storage).valid(),
        table_done(r, final(storage).store()) == constraint_created(
            label@,
            text::texts_view(ps@),
            kind,
            outside.answers(),
            old(storage).store(),
        ),
{
    let added = match kind {
        ConstraintType::Unique => {
            if ps.len() == 0 {
                return Err(
                    CypherError::SemanticError("UNIQUE constraint requires a property".to_owned()),
                );
            }
            storage.add_unique_constraint(label, ps[0].as_str())
        },
        ConstraintType::NotNull => {
            if ps.len() == 0 {
                return Err(
                    CypherError::SemanticError(
                        "NOT NULL constraint requires a property".to_owned(),
                    ),
                );
            }
            plainly(storage.add_not_null_constraint(label, ps[0].as_str()))
        },
        ConstraintType::NodeKey => plainly(storage.add_node_key_constraint(label, ps)),
        ConstraintType::PropertyType(k) => {
            if ps.len() == 0 {
                return Err(
                    CypherError::SemanticError(
                        "PROPERTY TYPE constraint requires a property".to_owned(),
                    ),
                );
            }
            plainly(
                storage.add_property_type_constraint(label, ps[0].as_str(), property_type_name(k)),
            )
        },
    };
    match added {
        Err(m) => Err(m.error(outside)),
        Ok(_) => {
            let t = Table { cols: Vec::new(), rows: Vec::new() };
            proof {
                assert(t@.cols =~= Seq::<Seq<char>>::empty());
                assert(t@.rows =~= Seq::<RecV>::empty());
            }
            Ok(t)
        },
    }
}

} // verus!
