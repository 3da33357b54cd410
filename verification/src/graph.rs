//! A graph with its queries: the entry point of the library.
use crate::arrange::{self, sort_texts};
use crate::assoc;
use crate::backend::{self, StorageBackend};
use crate::error::{self, CypherError, ErrV};
use crate::semantics::EnvV;
use crate::executor::{self, QueryResult, ResultV};
use crate::functions::{self, ask_numeral, ask_tenths};
use crate::literals::{self, quote_text};
use crate::memory::MemoryStorage;
use crate::number;
use crate::outside::{Answers, AnswersV, Outside, RequestV};
use crate::parser::{self, parse_with_return_extraction};
use crate::plan::{LogicalPlan, PlanV};
use crate::planner;
use crate::store::{self, StoreV};
use crate::text::{self, i64_text, join2, join3, join_texts, same_text, u64_text};
use crate::value::{
    self, CypherValue, Edge, EdgeId, EdgeV, Node, NodeId, NodeV, Parameters, PropV, PropertyMap,
    PropertyValue, PropsV, RecV, ValV,
};
use crate::writes::DoneV;
use vstd::prelude::*;

verus! {

/// Upper bound on the plans that a graph keeps. Once it is reached, further
/// new queries are planned anew each time.
pub const PLAN_CACHE_MAX: usize = 1024;

// ---------------------------------------------------------------------------
// Queries
// ---------------------------------------------------------------------------

/// The plan of a query.
pub open spec fn planned(q: Seq<char>) -> Result<PlanV, ErrV> {
    match parser::statement_of(q) {
        Ok(s) => planner::plan_of(s),
        Err(x) => Err(x),
    }
}

/// What a query gives on a graph, and the graph after it.
pub open spec fn queried(q: Seq<char>, env: EnvV, st: StoreV) -> DoneV<ResultV> {
    match planned(q) {
        Ok(p) => executor::answered(executor::run(p, env, st)),
        Err(x) => (Err(x), st),
    }
}

/// The node ids among the first values of rows, the first `n` of them: that of
/// a node, and an integer as an id.
pub open spec fn first_ids(rows: Seq<Seq<ValV>>, n: int) -> Seq<u64>
    decreases n,
{
    if n <= 0 || n > rows.len() {
        seq![]
    } else {
        let before = first_ids(rows, n - 1);
        if rows[n - 1].len() == 0 {
            before
        } else {
            match rows[n - 1][0] {
                ValV::Node(x) => before.push(x.id),
                ValV::Integer(i) => before.push(i as u64),
                _ => before,
            }
        }
    }
}

/// The first value of a row as a node id.
fn first_id(values: &Vec<CypherValue>) -> (r: Option<NodeId>)
    ensures
        r == (if value::vals_view(values@).len() == 0 {
            None
        } else {
            match value::vals_view(values@)[0] {
                ValV::Node(x) => Some(x.id),
                ValV::Integer(i) => Some(i as u64),
                _ => None,
            }
        }),
{
    if values.len() == 0 {
        return None;
    }
    match &values[0] {
        CypherValue::Node(n) => Some(n.id),
        CypherValue::Integer(i) => Some(*i as u64),
        _ => None,
    }
}

// ---------------------------------------------------------------------------
// Export
// ---------------------------------------------------------------------------

/// The text of a property in a query. A whole number keeps a place behind the
/// point, so that it stays a floating-point number.
pub open spec fn exported_value(ans: AnswersV, v: PropV) -> Result<Seq<char>, ErrV> {
    match v {
        PropV::Str(s) => Ok(literals::quoted(s)),
        PropV::Int(i) => Ok(text::int_text(i as int)),
        PropV::Float(b) => if number::is_whole(b) {
            functions::tenths_for(ans, b)
        } else {
            functions::numeral_for(ans, b)
        },
        PropV::Bool(true) => Ok("true"@),
        PropV::Bool(false) => Ok("false"@),
    }
}

/// The keys of properties, in the order of texts.
pub open spec fn sorted_keys(props: PropsV) -> Seq<Seq<char>> {
    arrange::arranged(Seq::new(props.len(), |i: int| props[i].0), arrange::text_after())
}

/// A property as it is written in a query.
pub open spec fn exported_entry(ans: AnswersV, props: PropsV, k: Seq<char>) -> Result<
    Seq<char>,
    ErrV,
> {
    match assoc::lookup(props, k) {
        Some(v) => match exported_value(ans, v) {
            Ok(t) => Ok(k + ": "@ + t),
            Err(x) => Err(x),
        },
        None => Ok(k + ": "@),
    }
}

/// Properties as they are written in a query, the first `n` of the keys.
pub open spec fn exported_entries(
    ans: AnswersV,
    props: PropsV,
    ks: Seq<Seq<char>>,
    n: int,
) -> Result<Seq<Seq<char>>, ErrV>
    decreases n,
{
    if n <= 0 || n > ks.len() {
        Ok(seq![])
    } else {
        match exported_entries(ans, props, ks, n - 1) {
            Err(x) => Err(x),
            Ok(before) => match exported_entry(ans, props, ks[n - 1]) {
                Ok(t) => Ok(before.push(t)),
                Err(x) => Err(x),
            },
        }
    }
}

/// All properties as they are written in a query: in braces behind a space,
/// or nothing where there are none.
pub open spec fn exported_props(ans: AnswersV, props: PropsV) -> Result<Seq<char>, ErrV> {
    if props.len() == 0 {
        Ok(seq![])
    } else {
        let ks = sorted_keys(props);
        match exported_entries(ans, props, ks, ks.len() as int) {
            Ok(es) => Ok(" {"@ + text::joined(es, ", "@) + "}"@),
            Err(x) => Err(x),
        }
    }
}

/// The variable that stands for a node.
pub open spec fn exported_variable(id: u64) -> Seq<char> {
    "_"@ + text::nat_text(id as nat)
}

/// A node as it is written in a query.
pub open spec fn exported_node(ans: AnswersV, n: NodeV) -> Result<Seq<char>, ErrV> {
    match exported_props(ans, n.properties) {
        Ok(props) => Ok(
            "("@ + exported_variable(n.id) + (if n.labels.len() == 0 {
                seq![]
            } else {
                ":"@ + text::joined(n.labels, ":"@)
            }) + props + ")"@,
        ),
        Err(x) => Err(x),
    }
}

/// A relationship as it is written in a query.
pub open spec fn exported_edge(ans: AnswersV, e: EdgeV) -> Result<Seq<char>, ErrV> {
    match exported_props(ans, e.properties) {
        Ok(props) => Ok(
            "("@ + exported_variable(e.src) + ")-[:"@ + e.label + props + "]->("@
                + exported_variable(e.dst) + ")"@,
        ),
        Err(x) => Err(x),
    }
}

/// The nodes of a list as they are written in a query, the first `n`.
pub open spec fn exported_nodes(ans: AnswersV, ns: Seq<NodeV>, n: int) -> Result<
    Seq<Seq<char>>,
    ErrV,
>
    decreases n,
{
    if n <= 0 || n > ns.len() {
        Ok(seq![])
    } else {
        match exported_nodes(ans, ns, n - 1) {
            Err(x) => Err(x),
            Ok(before) => match exported_node(ans, ns[n - 1]) {
                Ok(t) => Ok(before.push(t)),
                Err(x) => Err(x),
            },
        }
    }
}

/// The parts that precede, then the relationships with some ids as they are
/// written in a query, the first `n`.
pub open spec fn exported_edges(
    ans: AnswersV,
    st: StoreV,
    ids: Seq<u64>,
    parts: Seq<Seq<char>>,
    n: int,
) -> Result<Seq<Seq<char>>, ErrV>
    decreases n,
{
    if n <= 0 || n > ids.len() {
        Ok(parts)
    } else {
        match exported_edges(ans, st, ids, parts, n - 1) {
            Err(x) => Err(x),
            Ok(before) => match store::edge_at(st, ids[n - 1]) {
                None => Ok(before),
                Some(e) => match exported_edge(ans, e) {
                    Ok(t) => Ok(before.push(t)),
                    Err(x) => Err(x),
                },
            },
        }
    }
}

/// A query that creates the graph: all nodes, then all relationships. Nothing
/// where there are no nodes.
pub open spec fn exported(ans: AnswersV, st: StoreV) -> Result<Seq<char>, ErrV> {
    let ns = store::labelled(st, None);
    if ns.len() == 0 {
        Ok(seq![])
    } else {
        match exported_nodes(ans, ns, ns.len() as int) {
            Err(x) => Err(x),
            Ok(nodes) => {
                let ids = store::all_edge_ids(st);
                match exported_edges(ans, st, ids, nodes, ids.len() as int) {
                    Err(x) => Err(x),
                    Ok(parts) => Ok("CREATE\n  "@ + text::joined(parts, ",\n  "@)),
                }
            },
        }
    }
}

fn export_value<O: Outside>(outside: &O, v: &PropertyValue) -> (r: Result<String, CypherError>)
    ensures
        literals::text_outcome(r) == exported_value(outside.answers(), v@),
{
    match v {
        PropertyValue::String(s) => Ok(quote_text(s.as_str())),
        PropertyValue::Int(i) => Ok(i64_text(*i)),
        PropertyValue::Float(b) => if number::whole(*b) {
            ask_tenths(outside, *b)
        } else {
            ask_numeral(outside, *b)
        },
        PropertyValue::Bool(b) => if *b {
            Ok("true".to_owned())
        } else {
            Ok("false".to_owned())
        },
    }
}

fn export_entry<O: Outside>(outside: &O, props: &PropertyMap, k: &str) -> (r: Result<
    String,
    CypherError,
>)
    ensures
        literals::text_outcome(r) == exported_entry(outside.answers(), props@, k@),
{
    match props.get(k) {
        Some(v) => {
            let t = export_value(outside, v)?;
            Ok(join3(k, ": ", t.as_str()))
        },
        None => Ok(join2(k, ": ")),
    }
}

fn keys_in_order(props: &PropertyMap) -> (r: Vec<String>)
    ensures
        text::texts_view(r@) == sorted_keys(props@),
{
    let mut ks: Vec<String> = Vec::new();
    let mut i: usize = 0;
    while i < props.entries.len()
        invariant
            i <= props.entries.len(),
            ks@.len() == i,
            forall|j: int| 0 <= j < i ==> (#[trigger] ks@[j])@ == props@[j].0,
        decreases props.entries.len() - i,
    {
        ks.push(props.entries[i].0.clone());
        i += 1;
    }
    proof {
        assert(text::texts_view(ks@) =~= Seq::new(props@.len(), |i: int| props@[i].0));
    }
    sort_texts(&ks)
}

/// Writes properties as they stand in a query.
pub fn format_properties<O: Outside>(outside: &O, props: &PropertyMap) -> (r: Result<
    String,
    CypherError,
>)
    ensures
        literals::text_outcome(r) == exported_props(outside.answers(), props@),
{
    if props.entries.len() == 0 {
        let r = String::new();
        proof {
            assert(r@ =~= Seq::<char>::empty());
        }
        return Ok(r);
    }
    let ks = keys_in_order(props);
    let ghost ans = outside.answers();
    let ghost want = text::texts_view(ks@);
    let mut out: Vec<String> = Vec::new();
    let mut i: usize = 0;
    proof {
        assert(text::texts_view(out@) =~= Seq::<Seq<char>>::empty());
    }
    while i < ks.len()
        invariant
            i <= ks.len(),
            props.entries.len() > 0,
            ans == outside.answers(),
            want == text::texts_view(ks@),
            want == sorted_keys(props@),
            exported_entries(ans, props@, want, i as int) == Ok::<Seq<Seq<char>>, ErrV>(
                text::texts_view(out@),
            ),
        decreases ks.len() - i,
    {
        proof {
            assert(exported_entries(ans, props@, want, i as int + 1) == (match exported_entry(
                ans,
                props@,
                want[i as int],
            ) {
                Ok(t) => Ok(text::texts_view(out@).push(t)),
                Err(x) => Err(x),
            }));
        }
        match export_entry(outside, props, ks[i].as_str()) {
            Ok(t) => {
                proof {
                    assert(text::texts_view(out@.push(t)) =~= text::texts_view(out@).push(t@));
                }
                out.push(t);
            },
            Err(e) => {
                proof {
                    lemma_entries_stop(ans, props@, want, i as int + 1);
                }
                return Err(e);
            },
        }
        i += 1;
    }
    let body = join_texts(&out, ", ");
    Ok(join3(" {", body.as_str(), "}"))
}

/// Where an entry cannot be written, no longer list of entries can.
proof fn lemma_entries_stop(ans: AnswersV, props: PropsV, ks: Seq<Seq<char>>, n: int)
    requires
        0 <= n <= ks.len(),
        exported_entries(ans, props, ks, n) is Err,
    ensures
        exported_entries(ans, props, ks, ks.len() as int) == exported_entries(ans, props, ks, n),
    decreases ks.len() - n,
{
    if n < ks.len() {
        lemma_entries_stop(ans, props, ks, n + 1);
    }
}

proof fn lemma_nodes_stop(ans: AnswersV, ns: Seq<NodeV>, n: int)
    requires
        0 <= n <= ns.len(),
        exported_nodes(ans, ns, n) is Err,
    ensures
        exported_nodes(ans, ns, ns.len() as int) == exported_nodes(ans, ns, n),
    decreases ns.len() - n,
{
    if n < ns.len() {
        lemma_nodes_stop(ans, ns, n + 1);
    }
}

proof fn lemma_edges_stop(
    ans: AnswersV,
    st: StoreV,
    ids: Seq<u64>,
    parts: Seq<Seq<char>>,
    n: int,
)
    requires
        0 <= n <= ids.len(),
        exported_edges(ans, st, ids, parts, n) is Err,
    ensures
        exported_edges(ans, st, ids, parts, ids.len() as int) == exported_edges(
            ans,
            st,
            ids,
            parts,
            n,
        ),
    decreases ids.len() - n,
{
    if n < ids.len() {
        lemma_edges_stop(ans, st, ids, parts, n + 1);
    }
}

fn variable_of(id: u64) -> (r: String)
    ensures
        r@ == exported_variable(id),
{
    join2("_", u64_text(id).as_str())
}

fn export_node<O: Outside>(outside: &O, n: &Node) -> (r: Result<String, CypherError>)
    ensures
        literals::text_outcome(r) == exported_node(outside.answers(), n@),
{
    let props = format_properties(outside, &n.properties)?;
    let labels = if n.labels.len() == 0 {
        String::new()
    } else {
        join2(":", join_texts(&n.labels, ":").as_str())
    };
    proof {
        if n.labels.len() == 0 {
            assert(labels@ =~= Seq::<char>::empty());
        }
    }
    let head = join3("(", variable_of(n.id).as_str(), labels.as_str());
    Ok(join3(head.as_str(), props.as_str(), ")"))
}

fn export_edge<O: Outside>(outside: &O, e: &Edge) -> (r: Result<String, CypherError>)
    ensures
        literals::text_outcome(r) == exported_edge(outside.answers(), e@),
{
    let props = format_properties(outside, &e.properties)?;
    let head = join3("(", variable_of(e.src).as_str(), ")-[:");
    let middle = join3(head.as_str(), e.label.as_str(), props.as_str());
    let arrow = join2(middle.as_str(), "]->(");
    Ok(join3(arrow.as_str(), variable_of(e.dst).as_str(), ")"))
}

fn export_nodes<O: Outside>(outside: &O, ns: &Vec<Node>) -> (r: Result<Vec<String>, CypherError>)
    ensures
        match r {
            Ok(v) => exported_nodes(outside.answers(), value::nodes_view(ns@), ns@.len() as int)
                == Ok::<Seq<Seq<char>>, ErrV>(text::texts_view(v@)),
            Err(e) => exported_nodes(outside.answers(), value::nodes_view(ns@), ns@.len() as int)
                == Err::<Seq<Seq<char>>, ErrV>(e@),
        },
{
    let ghost ans = outside.answers();
    let ghost want = value::nodes_view(ns@);
    let mut out: Vec<String> = Vec::new();
    let mut i: usize = 0;
    proof {
        assert(text::texts_view(out@) =~= Seq::<Seq<char>>::empty());
    }
    while i < ns.len()
        invariant
            i <= ns.len(),
            ans == outside.answers(),
            want == value::nodes_view(ns@),
            exported_nodes(ans, want, i as int) == Ok::<Seq<Seq<char>>, ErrV>(
                text::texts_view(out@),
            ),
        decreases ns.len() - i,
    {
        proof {
            assert(want[i as int] == ns@[i as int]@);
            assert(exported_nodes(ans, want, i as int + 1) == (match exported_node(
                ans,
                want[i as int],
            ) {
                Ok(t) => Ok(text::texts_view(out@).push(t)),
                Err(x) => Err(x),
            }));
        }
        match export_node(outside, &ns[i]) {
            Ok(t) => {
                proof {
                    assert(text::texts_view(out@.push(t)) =~= text::texts_view(out@).push(t@));
                }
                out.push(t);
            },
            Err(e) => {
                proof {
                    lemma_nodes_stop(ans, want, i as int + 1);
                }
                return Err(e);
            },
        }
        i += 1;
    }
    Ok(out)
}

fn export_edges<S: StorageBackend, O: Outside>(
    outside: &O,
    storage: &S,
    ids: &Vec<EdgeId>,
    parts: Vec<String>,
) -> (r: Result<Vec<String>, CypherError>)
    requires
        storage.valid(),
    ensures
        match r {
            Ok(v) => exported_edges(
                outside.answers(),
                storage.store(),
                ids@,
                text::texts_view(parts@),
                ids@.len() as int,
            ) == Ok::<Seq<Seq<char>>, ErrV>(text::texts_view(v@)),
            Err(e) => exported_edges(
                outside.answers(),
                storage.store(),
                ids@,
                text::texts_view(parts@),
                ids@.len() as int,
            ) == Err::<Seq<Seq<char>>, ErrV>(e@),
        },
{
    let ghost ans = outside.answers();
    let ghost first = text::texts_view(parts@);
    let mut out = parts;
    let mut i: usize = 0;
    while i < ids.len()
        invariant
            i <= ids.len(),
            storage.valid(),
            ans == outside.answers(),
            first == text::texts_view(parts@),
            exported_edges(ans, storage.store(), ids@, first, i as int) == Ok::<
                Seq<Seq<char>>,
                ErrV,
            >(text::texts_view(out@)),
        decreases ids.len() - i,
    {
        if let Some(e) = storage.get_edge(ids[i]) {
            proof {
                assert(exported_edges(ans, storage.store(), ids@, first, i as int + 1) == (
                match exported_edge(ans, e@) {
                    Ok(t) => Ok(text::texts_view(out@).push(t)),
                    Err(x) => Err(x),
                }));
            }
            match export_edge(outside, &e) {
                Ok(t) => {
                    proof {
                        assert(text::texts_view(out@.push(t)) =~= text::texts_view(out@).push(t@));
                    }
                    out.push(t);
                },
                Err(e) => {
                    proof {
                        lemma_edges_stop(ans, storage.store(), ids@, first, i as int + 1);
                    }
                    return Err(e);
                },
            }
        }
        i += 1;
    }
    Ok(out)
}

// ---------------------------------------------------------------------------
// Graphs
// ---------------------------------------------------------------------------

/// A graph in a storage, with a source of what queries need from outside.
pub struct Graph<S: StorageBackend, O: Outside> {
    storage: S,
    outside: O,
    seed: u64,
    /// Plans that were made, by the texts of their queries. A plan follows from
    /// the text alone, as parameters are bound when it is run.
    plans: Vec<(String, LogicalPlan)>,
}

/// A graph in memory with answers that were collected beforehand.
pub type InMemoryGraph = Graph<MemoryStorage, Answers>;

/// Every plan that is kept is that of its query.
#[verifier::opaque]
spec fn plans_sound(s: Seq<(String, LogicalPlan)>) -> bool {
    forall|i: int|
        0 <= i < s.len() ==> planned((#[trigger] s[i]).0@) == Ok::<PlanV, ErrV>(s[i].1@)
}

proof fn lemma_plan_kept(s: Seq<(String, LogicalPlan)>, i: int)
    requires
        plans_sound(s),
        0 <= i < s.len(),
    ensures
        planned(s[i].0@) == Ok::<PlanV, ErrV>(s[i].1@),
{
    reveal(plans_sound);
}

proof fn lemma_plan_added(s: Seq<(String, LogicalPlan)>, e: (String, LogicalPlan))
    requires
        plans_sound(s),
        planned(e.0@) == Ok::<PlanV, ErrV>(e.1@),
    ensures
        plans_sound(s.push(e)),
{
    reveal(plans_sound);
    assert forall|i: int| 0 <= i < s.push(e).len() implies planned((#[trigger] s.push(e)[i]).0@)
        == Ok::<PlanV, ErrV>(s.push(e)[i].1@) by {
        if i < s.len() {
            assert(s.push(e)[i] == s[i]);
        }
    }
}

fn make_plan(q: &str) -> (r: Result<LogicalPlan, CypherError>)
    ensures
        planner::plan_outcome(r) == planned(q@),
{
    let stmt = parse_with_return_extraction(q)?;
    planner::plan(&stmt)
}

impl Graph<MemoryStorage, Answers> {
    /// An empty graph in memory, without answers from outside.
    pub fn new() -> (r: Self)
        ensures
            r.valid(),
            r.store() == store::empty_store(),
            forall|q: RequestV| (#[trigger] (r.answers())(q)) is None,
            r.random_seed() == number::seed_of(0),
    {
        Graph::with_outside(MemoryStorage::new(), Answers::new())
    }
}

impl Default for Graph<MemoryStorage, Answers> {
    fn default() -> (r: Self)
        ensures
            r.valid(),
            r.store() == store::empty_store(),
            forall|q: RequestV| (#[trigger] (r.answers())(q)) is None,
            r.random_seed() == number::seed_of(0),
    {
        Graph::new()
    }
}

impl<S: StorageBackend> Graph<S, Answers> {
    /// A graph in a storage, without answers from outside.
    pub fn new_with_storage(storage: S) -> (r: Self)
        requires
            storage.valid(),
        ensures
            r.valid(),
            r.store() == storage.store(),
            forall|q: RequestV| (#[trigger] (r.answers())(q)) is None,
            r.random_seed() == number::seed_of(0),
    {
        Graph::with_outside(storage, Answers::new())
    }
}

impl<S: StorageBackend, O: Outside> Graph<S, O> {
    /// A graph that is in order is well-formed: identifiers are
    /// positions, and both ends of every relationship are there.
    pub proof fn lemma_well_formed(&self)
        requires
            self.valid(),
        ensures
            store::well_formed(self.store()),
    {
        self.storage.lemma_valid();
    }
}

impl<S: StorageBackend, O: Outside> Graph<S, O> {
    /// The graph that is stored.
    pub closed spec fn store(&self) -> StoreV {
        self.storage.store()
    }

    /// The answers from outside.
    pub closed spec fn answers(&self) -> AnswersV {
        self.outside.answers()
    }

    /// The seed of the random numbers of the next query.
    pub closed spec fn random_seed(&self) -> u64 {
        self.seed
    }

    /// The storage is in order, and so are the plans that are kept.
    pub closed spec fn valid(&self) -> bool {
        self.storage.valid() && plans_sound(self.plans@) && self.plans.len() <= PLAN_CACHE_MAX
    }

    /// What the next query is evaluated with.
    pub open spec fn env(&self, params: RecV) -> EnvV {
        EnvV { params, answers: self.answers(), seed: self.random_seed(), group: None }
    }

    /// A graph in a storage, with a source of answers.
    pub fn with_outside(storage: S, outside: O) -> (r: Self)
        requires
            storage.valid(),
        ensures
            r.valid(),
            r.store() == storage.store(),
            r.answers() == outside.answers(),
            r.random_seed() == number::seed_of(0),
    {
        let plans: Vec<(String, LogicalPlan)> = Vec::new();
        proof {
            reveal(plans_sound);
        }
        Graph { storage, outside, seed: number::seed_from_clock(0), plans }
    }

    /// Seeds the random numbers of the queries that follow.
    pub fn reseed(&mut self, clock: u64)
        requires
            old(self).valid(),
        ensures
            final(self).valid(),
            final(self).store() == old(self).store(),
            final(self).answers() == old(self).answers(),
            final(self).random_seed() == number::seed_of(clock),
    {
        self.seed = number::seed_from_clock(clock);
    }

    /// Takes another source of answers.
    pub fn set_outside(&mut self, outside: O)
        requires
            old(self).valid(),
        ensures
            final(self).valid(),
            final(self).store() == old(self).store(),
            final(self).answers() == outside.answers(),
            final(self).random_seed() == old(self).random_seed(),
    {
        self.outside = outside;
    }

    /// The source of answers.
    pub fn outside(&self) -> (r: &O)
        ensures
            r.answers() == self.answers(),
    {
        &self.outside
    }

    /// Parses, plans and runs a query.
    pub fn execute(&mut self, q: &str) -> (r: Result<QueryResult, CypherError>)
        requires
            old(self).valid(),
        ensures
            final(self).valid(),
            executor::result_done(r, final(self).store()) == queried(
                q@,
                old(self).env(seq![]),
                old(self).store(),
            ),
            final(self).answers() == old(self).answers(),
            final(self).random_seed() == number::xorshift(old(self).random_seed()),
    {
        self.execute_with_params(q, &Parameters::new())
    }

    /// The position of the plan of a query among those that are kept.
    fn find_plan(&self, q: &str) -> (r: Option<usize>)
        ensures
            r matches Some(i) ==> i < self.plans.len() && self.plans@[i as int].0@ == q@,
    {
        let mut i: usize = 0;
        while i < self.plans.len()
            invariant
                i <= self.plans.len(),
            decreases self.plans.len() - i,
        {
            if same_text(self.plans[i].0.as_str(), q) {
                return Some(i);
            }
            i += 1;
        }
        None
    }

    /// Parses, plans and runs a query with values for its parameters.
    pub fn execute_with_params(&mut self, q: &str, params: &Parameters) -> (r: Result<
        QueryResult,
        CypherError,
    >)
        requires
            old(self).valid(),
        ensures
            final(self).valid(),
            executor::result_done(r, final(self).store()) == queried(
                q@,
                old(self).env(params@),
                old(self).store(),
            ),
            final(self).answers() == old(self).answers(),
            final(self).random_seed() == number::xorshift(old(self).random_seed()),
    {
        let seed = self.seed;
        self.seed = number::next_random(seed);
        let at = match self.find_plan(q) {
            Some(i) => i,
            None => {
                let plan = match make_plan(q) {
                    Ok(p) => p,
                    Err(e) => {
                        return Err(e);
                    },
                };
                if self.plans.len() >= PLAN_CACHE_MAX {
                    return executor::execute_with_params(
                        &plan,
                        &mut self.storage,
                        params,
                        &self.outside,
                        seed,
                    );
                }
                let i = self.plans.len();
                let key = q.to_owned();
                proof {
                    lemma_plan_added(self.plans@, (key, plan));
                }
                self.plans.push((key, plan));
                i
            },
        };
        proof {
            lemma_plan_kept(self.plans@, at as int);
        }
        executor::execute_with_params(
            &self.plans[at].1,
            &mut self.storage,
            params,
            &self.outside,
            seed,
        )
    }

    /// Runs a query for the node ids in its first column. `execute` gives the
    /// whole result.
    pub fn query(&mut self, q: &str) -> (r: Result<Vec<NodeId>, String>)
        requires
            old(self).valid(),
        ensures
            final(self).valid(),
            final(self).store() == queried(q@, old(self).env(seq![]), old(self).store()).1,
            match queried(q@, old(self).env(seq![]), old(self).store()).0 {
                Ok(t) => r matches Ok(ids) && ids@ == first_ids(t.rows, t.rows.len() as int),
                Err(x) => r matches Err(m) && m@ == error::error_text(x),
            },
            final(self).answers() == old(self).answers(),
            final(self).random_seed() == number::xorshift(old(self).random_seed()),
    {
        let result = match self.execute(q) {
            Ok(t) => t,
            Err(e) => {
                return Err(e.to_string());
            },
        };
        let mut ids: Vec<NodeId> = Vec::new();
        let mut i: usize = 0;
        while i < result.rows.len()
            invariant
                i <= result.rows.len(),
                ids@ == first_ids(result@.rows, i as int),
            decreases result.rows.len() - i,
        {
            proof {
                assert(result@.rows[i as int] == value::vals_view(result.rows@[i as int].values@));
            }
            if let Some(id) = first_id(&result.rows[i].values) {
                ids.push(id);
            }
            i += 1;
        }
        Ok(ids)
    }

    pub fn create_node(&mut self, labels: Vec<String>, properties: PropertyMap) -> (id: NodeId)
        requires
            old(self).valid(),
        ensures
            final(self).valid(),
            id == old(self).store().nodes.len(),
            final(self).store() == store::node_created(
                old(self).store(),
                text::texts_view(labels@),
                properties@,
            ),
            final(self).answers() == old(self).answers(),
            final(self).random_seed() == old(self).random_seed(),
    {
        self.storage.create_node(labels, properties)
    }

    pub fn create_edge(
        &mut self,
        label: String,
        src: NodeId,
        dst: NodeId,
        properties: PropertyMap,
    ) -> (r: Result<EdgeId, String>)
        requires
            old(self).valid(),
        ensures
            final(self).valid(),
            match store::edge_refusal(old(self).store(), src, dst) {
                Some(m) => final(self).store() == old(self).store() && (r matches Err(e) && e@ == m),
                None => r == Ok::<EdgeId, String>(old(self).store().edges.len() as u64)
                    && final(self).store() == store::edge_created(
                    old(self).store(),
                    label@,
                    src,
                    dst,
                    properties@,
                ),
            },
            final(self).answers() == old(self).answers(),
            final(self).random_seed() == old(self).random_seed(),
    {
        self.storage.create_edge(label, src, dst, properties)
    }

    pub fn get_node(&self, id: NodeId) -> (r: Option<Node>)
        requires
            self.valid(),
        ensures
            backend::opt_node(r) == store::node_at(self.store(), id),
    {
        self.storage.get_node(id)
    }

    pub fn get_edge(&self, id: EdgeId) -> (r: Option<Edge>)
        requires
            self.valid(),
        ensures
            backend::opt_edge(r) == store::edge_at(self.store(), id),
    {
        self.storage.get_edge(id)
    }

    /// All nodes, or those with a label.
    pub fn match_nodes(&self, label: Option<&str>) -> (r: Vec<Node>)
        requires
            self.valid(),
        ensures
            value::nodes_view(r@) == store::labelled(self.store(), backend::opt_str(label)),
    {
        self.storage.match_nodes(label)
    }

    pub fn node_count(&self) -> (r: usize)
        requires
            self.valid(),
        ensures
            r == store::node_count(self.store()),
    {
        self.storage.node_count()
    }

    pub fn edge_count(&self) -> (r: usize)
        requires
            self.valid(),
        ensures
            r == store::edge_count(self.store()),
    {
        self.storage.edge_count()
    }

    /// Writes a query that creates the whole graph.
    pub fn export_cypher(&self) -> (r: Result<String, CypherError>)
        requires
            self.valid(),
        ensures
            literals::text_outcome(r) == exported(self.answers(), self.store()),
    {
        let ns = self.storage.match_nodes(None);
        proof {
            assert(value::nodes_view(ns@) == store::labelled(self.store(), None));
        }
        if ns.len() == 0 {
            let r = String::new();
            proof {
                assert(r@ =~= Seq::<char>::empty());
            }
            return Ok(r);
        }
        let nodes = export_nodes(&self.outside, &ns)?;
        let ids = self.storage.all_edge_ids();
        let parts = export_edges(&self.outside, &self.storage, &ids, nodes)?;
        let body = join_texts(&parts, ",\n  ");
        Ok(join2("CREATE\n  ", body.as_str()))
    }
}

} // verus!
