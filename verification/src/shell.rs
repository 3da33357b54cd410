//! The decisions of an interactive shell: what a line of input asks for, and
//! what the shell answers to it.
use crate::arrange::{self, sort_texts};
use crate::backend::StorageBackend;
use crate::display::{self, render, OutputMode};
use crate::error::{self, CypherError, ErrV};
use crate::executor::{self, QueryResult, ResultRow, ResultV};
use crate::graph::{self, Graph};
use crate::number;
use crate::outside::{AnswersV, Outside};
use crate::store::{self, StoreV};
use crate::text::{
    self, chars_of, join2, join3, join_texts, list_has, same_text, slice_text, split_text,
    text_ends_with, text_starts_with, trim_text, trim_text_end, u64_text,
};
use crate::value::{self, CypherValue, ValV};
use vstd::prelude::*;

verus! {

/// What the shell says of its commands.
pub const HELP_TEXT: &'static str = "Commands:\n  .help              Show this help message\n  .quit  or  .exit   Exit the shell\n  .timer [on|off]    Toggle query execution timer (default: on)\n  .mode  [MODE]      Set output mode: table (default), csv, json, line\n  .tables            List all node labels in the graph\n  .stats             Show node and edge counts\n  .export            Export the entire graph as Cypher CREATE statements\n\nCypher queries must end with a semicolon (;).\nMulti-line input is supported \u{2014} keep typing until you add ';'.\n\nExamples:\n  CREATE (:Person {name: 'Alice', age: 30});\n  MATCH (n:Person) RETURN n.name, n.age ORDER BY n.name;\n  MATCH (a)-[r]->(b) RETURN a, type(r), b LIMIT 10;";

/// The query that lists the labels of all nodes.
pub const LABELS_QUERY: &'static str = "MATCH (n) RETURN DISTINCT labels(n) AS labels";

// ---------------------------------------------------------------------------
// Lines of input
// ---------------------------------------------------------------------------

/// A text without the semicolons at its end.
pub open spec fn without_semicolons(s: Seq<char>) -> Seq<char>
    decreases s.len(),
{
    if s.len() > 0 && s.last() == ';' {
        without_semicolons(s.drop_last())
    } else {
        s
    }
}

/// A text without the semicolons at its end.
pub fn strip_semicolons(s: &str) -> (r: String)
    ensures
        r@ == without_semicolons(s@),
{
    let v = chars_of(s);
    let mut n = v.len();
    proof {
        assert(v@.take(n as int) =~= v@);
    }
    while n > 0 && v[n - 1] == ';'
        invariant
            n <= v.len(),
            v@ == s@,
            without_semicolons(s@) == without_semicolons(v@.take(n as int)),
        decreases n,
    {
        proof {
            assert(v@.take(n as int).drop_last() =~= v@.take(n - 1));
            assert(v@.take(n as int).last() == v@[n - 1]);
        }
        n -= 1;
    }
    proof {
        assert(v@.take(n as int) =~= v@.subrange(0, n as int));
        if n > 0 {
            assert(v@.take(n as int).last() == v@[n - 1]);
        }
    }
    slice_text(&v, 0, n)
}

/// The queries among the first `n` pieces: what is left of each without white
/// space at its ends, unless nothing is.
pub open spec fn queries_of(pieces: Seq<Seq<char>>, n: int) -> Seq<Seq<char>>
    decreases n,
{
    if n <= 0 || n > pieces.len() {
        seq![]
    } else if text::trimmed(pieces[n - 1]).len() == 0 {
        queries_of(pieces, n - 1)
    } else {
        queries_of(pieces, n - 1).push(text::trimmed(pieces[n - 1]))
    }
}

/// The queries of a script, which semicolons end.
pub fn split_script(src: &str) -> (r: Vec<String>)
    ensures
        text::texts_view(r@) == queries_of(
            text::split_pieces(src@, ";"@),
            text::split_pieces(src@, ";"@).len() as int,
        ),
{
    let pieces = split_text(src, ";");
    let ghost want = text::texts_view(pieces@);
    let mut out: Vec<String> = Vec::new();
    let mut i: usize = 0;
    proof {
        assert(text::texts_view(out@) =~= Seq::<Seq<char>>::empty());
    }
    while i < pieces.len()
        invariant
            i <= pieces.len(),
            want == text::texts_view(pieces@),
            text::texts_view(out@) == queries_of(want, i as int),
        decreases pieces.len() - i,
    {
        let q = trim_text(pieces[i].as_str());
        if chars_of(q.as_str()).len() > 0 {
            proof {
                assert(text::texts_view(out@.push(q)) =~= text::texts_view(out@).push(q@));
            }
            out.push(q);
        }
        i += 1;
    }
    out
}

/// What a line of input asks for.
#[derive(Debug)]
pub enum Line {
    /// A command, and whether an unfinished query is thrown away for it.
    Command(String, bool),
    Query(String),
    /// The query goes on in the next line.
    More,
}

/// The view of a `Line`.
pub enum LineV {
    Command(Seq<char>, bool),
    Query(Seq<char>),
    More,
}

impl Line {
    pub open spec fn view(&self) -> LineV {
        match self {
            Line::Command(c, d) => LineV::Command(c@, *d),
            Line::Query(q) => LineV::Query(q@),
            Line::More => LineV::More,
        }
    }
}

/// A line is a command if it begins with a dot or a backslash.
pub open spec fn is_command(trimmed: Seq<char>) -> bool {
    text::starts_with_text(trimmed, "."@) || text::starts_with_text(trimmed, "\\"@)
}

/// The unfinished query with a line behind it.
pub open spec fn continued(buf: Seq<char>, trimmed: Seq<char>) -> Seq<char> {
    if buf.len() == 0 {
        trimmed
    } else {
        buf + " "@ + trimmed
    }
}

/// What a line asks for behind an unfinished query, and the unfinished query
/// after it. A semicolon at its end finishes a query.
pub open spec fn line_taken(buf: Seq<char>, line: Seq<char>) -> (LineV, Seq<char>) {
    let trimmed = text::trimmed(line);
    if is_command(trimmed) {
        (LineV::Command(trimmed, buf.len() > 0), seq![])
    } else {
        let all = continued(buf, trimmed);
        if text::ends_with_text(text::trimmed_end(all), ";"@) {
            (LineV::Query(without_semicolons(text::trimmed(all))), seq![])
        } else {
            (LineV::More, all)
        }
    }
}

/// Takes a line of input behind an unfinished query.
pub fn take_line(buf: &mut String, line: &str) -> (r: Line)
    ensures
        (r@, final(buf)@) == line_taken(old(buf)@, line@),
{
    let trimmed = trim_text(line);
    let started = chars_of(buf.as_str()).len() > 0;
    if text_starts_with(trimmed.as_str(), ".") || text_starts_with(trimmed.as_str(), "\\") {
        *buf = String::new();
        proof {
            assert(buf@ =~= Seq::<char>::empty());
        }
        return Line::Command(trimmed, started);
    }
    let all = if started {
        join3(buf.as_str(), " ", trimmed.as_str())
    } else {
        trimmed
    };
    if text_ends_with(trim_text_end(all.as_str()).as_str(), ";") {
        let query = strip_semicolons(trim_text(all.as_str()).as_str());
        *buf = String::new();
        proof {
            assert(buf@ =~= Seq::<char>::empty());
        }
        Line::Query(query)
    } else {
        *buf = all;
        Line::More
    }
}

/// What the shell says where its input is interrupted, and throws away the
/// unfinished query.
pub fn interrupt(buf: &mut String) -> (r: &'static str)
    ensures
        final(buf)@ == Seq::<char>::empty(),
        r@ == (if old(buf)@.len() > 0 {
            "(query discarded)"@
        } else {
            "(use '.exit' or Ctrl-D to quit)"@
        }),
{
    let started = chars_of(buf.as_str()).len() > 0;
    *buf = String::new();
    proof {
        assert(buf@ =~= Seq::<char>::empty());
    }
    if started {
        "(query discarded)"
    } else {
        "(use '.exit' or Ctrl-D to quit)"
    }
}

/// The prompt before the next line.
pub fn prompt(buf: &String) -> (r: &'static str)
    ensures
        r@ == (if buf@.len() == 0 {
            "D "@
        } else {
            "  "@
        }),
{
    if chars_of(buf.as_str()).len() == 0 {
        "D "
    } else {
        "  "
    }
}

// ---------------------------------------------------------------------------
// Queries
// ---------------------------------------------------------------------------

/// What became of a query.
#[derive(Debug)]
pub enum Ran {
    /// There was no query.
    Nothing,
    /// The text of the result and the number of its rows.
    Shown(String, usize),
    /// The text of the error.
    Failed(String),
}

/// The view of a `Ran`.
pub enum RanV {
    Nothing,
    Shown(Seq<char>, nat),
    Failed(Seq<char>),
}

impl Ran {
    pub open spec fn view(&self) -> RanV {
        match self {
            Ran::Nothing => RanV::Nothing,
            Ran::Shown(t, n) => RanV::Shown(t@, *n as nat),
            Ran::Failed(m) => RanV::Failed(m@),
        }
    }
}

/// What the shell makes of the result of a query.
pub open spec fn reported(ans: AnswersV, mode: OutputMode, r: Result<ResultV, ErrV>) -> RanV {
    match r {
        Err(x) => RanV::Failed("Error: "@ + error::error_text(x)),
        Ok(t) => match display::rendered(ans, mode, t) {
            Ok(s) => RanV::Shown(s, t.rows.len()),
            Err(x) => RanV::Failed("Error: "@ + error::error_text(x)),
        },
    }
}

fn failure(e: &CypherError) -> (r: String)
    ensures
        r@ == "Error: "@ + error::error_text(e@),
{
    join2("Error: ", e.to_string().as_str())
}

// ---------------------------------------------------------------------------
// Commands
// ---------------------------------------------------------------------------

/// What the shell answers to a command: on its output, on its error output,
/// and whether it goes on.
#[derive(Debug)]
pub struct Reply {
    pub out: String,
    pub err: String,
    pub more: bool,
}

/// The view of a `Reply`.
pub struct ReplyV {
    pub out: Seq<char>,
    pub err: Seq<char>,
    pub more: bool,
}

impl Reply {
    pub open spec fn view(&self) -> ReplyV {
        ReplyV { out: self.out@, err: self.err@, more: self.more }
    }
}

/// The name of a command and what follows it behind a space.
pub open spec fn command_parts(input: Seq<char>) -> (Seq<char>, Seq<char>) {
    let t = text::trimmed(input);
    match text::find_from(t, " "@, 0) {
        Some(i) => (t.take(i), text::trimmed(t.skip(i + 1))),
        None => (t, seq![]),
    }
}

fn split_command(input: &str) -> (r: (String, String))
    ensures
        (r.0@, r.1@) == command_parts(input@),
{
    let t = trim_text(input);
    let v = chars_of(t.as_str());
    let mut i: usize = 0;
    proof {
        reveal_strlit(" ");
    }
    while i < v.len() && v[i] != ' '
        invariant
            i <= v.len(),
            v@ == t@,
            " "@ == seq![' '],
            text::find_from(t@, " "@, 0) == text::find_from(t@, " "@, i as int),
        decreases v.len() - i,
    {
        proof {
            assert(t@.subrange(i as int, i + 1)[0] == v@[i as int]);
        }
        i += 1;
    }
    if i < v.len() {
        proof {
            assert(t@.subrange(i as int, i + 1) =~= " "@);
            assert(t@.take(i as int) =~= v@.subrange(0, i as int));
            assert(t@.skip(i + 1) =~= v@.subrange(i + 1, v@.len() as int));
        }
        let rest = slice_text(&v, i + 1, v.len());
        (slice_text(&v, 0, i), trim_text(rest.as_str()))
    } else {
        let rest = String::new();
        proof {
            assert(rest@ =~= Seq::<char>::empty());
        }
        (t, rest)
    }
}

/// An answer of one line.
pub open spec fn said(line: Seq<char>) -> ReplyV {
    ReplyV { out: line + "\n"@, err: seq![], more: true }
}

/// An answer of one line on the error output.
pub open spec fn complained(line: Seq<char>) -> ReplyV {
    ReplyV { out: seq![], err: line + "\n"@, more: true }
}

/// The texts of a list that are not yet among those that were found, among
/// the first `n` values.
pub open spec fn names_in(items: Seq<ValV>, found: Seq<Seq<char>>, n: int) -> Seq<Seq<char>>
    decreases n,
{
    if n <= 0 || n > items.len() {
        found
    } else {
        let before = names_in(items, found, n - 1);
        match items[n - 1] {
            ValV::Str(s) => if text::has_text(before, s) {
                before
            } else {
                before.push(s)
            },
            _ => before,
        }
    }
}

/// The texts in the lists that rows begin with, each once, among the first
/// `n` rows.
pub open spec fn label_names(rows: Seq<Seq<ValV>>, n: int) -> Seq<Seq<char>>
    decreases n,
{
    if n <= 0 || n > rows.len() {
        seq![]
    } else {
        let before = label_names(rows, n - 1);
        if rows[n - 1].len() == 0 {
            before
        } else {
            match rows[n - 1][0] {
                ValV::List(items) => names_in(items, before, items.len() as int),
                _ => before,
            }
        }
    }
}

/// What the shell says of the labels that a query has found.
pub open spec fn labels_reply(r: Result<ResultV, ErrV>) -> ReplyV {
    match r {
        Err(x) => complained("Error: "@ + error::error_text(x)),
        Ok(t) => {
            let names = label_names(t.rows, t.rows.len() as int);
            if names.len() == 0 {
                said("(no labels)"@)
            } else {
                said(text::joined(arrange::arranged(names, arrange::text_after()), "\n"@))
            }
        },
    }
}

/// What the shell answers to a command, given what the query for the labels
/// gives.
pub open spec fn reply(
    cmd: Seq<char>,
    rest: Seq<char>,
    mode: OutputMode,
    timer: bool,
    ans: AnswersV,
    st: StoreV,
    labels: Result<ResultV, ErrV>,
) -> ReplyV {
    if cmd == ".help"@ || cmd == "\\?"@ {
        said(HELP_TEXT@)
    } else if cmd == ".quit"@ || cmd == ".exit"@ || cmd == "\\q"@ {
        ReplyV { out: seq![], err: seq![], more: false }
    } else if cmd == ".timer"@ {
        if rest == "on"@ {
            said("Timer: on"@)
        } else if rest == "off"@ {
            said("Timer: off"@)
        } else {
            said(
                "Timer is currently "@ + (if timer {
                    "on"@
                } else {
                    "off"@
                }),
            )
        }
    } else if cmd == ".mode"@ {
        if rest.len() == 0 {
            said("Current mode: "@ + display::mode_name(mode))
        } else {
            match display::mode_named(rest) {
                Some(m) => said("Output mode: "@ + display::mode_name(m)),
                None => complained(
                    "Unknown mode '"@ + rest + "'. Valid modes: table, csv, json, line"@,
                ),
            }
        }
    } else if cmd == ".tables"@ {
        if store::node_count(st) == 0 {
            said("(no nodes)"@)
        } else {
            labels_reply(labels)
        }
    } else if cmd == ".stats"@ {
        said(
            "Nodes : "@ + text::nat_text(store::node_count(st)) + "\nEdges : "@ + text::nat_text(
                store::edge_count(st),
            ),
        )
    } else if cmd == ".export"@ {
        match graph::exported(ans, st) {
            Ok(t) => ReplyV { out: t, err: seq![], more: true },
            Err(x) => complained("Error: "@ + error::error_text(x)),
        }
    } else {
        complained("Unknown command '"@ + cmd + "'. Type '.help' for usage."@)
    }
}

/// The mode after a command.
pub open spec fn mode_after(cmd: Seq<char>, rest: Seq<char>, mode: OutputMode) -> OutputMode {
    if cmd == ".mode"@ && rest.len() > 0 && display::mode_named(rest) is Some {
        display::mode_named(rest).unwrap()
    } else {
        mode
    }
}

/// The timer after a command.
pub open spec fn timer_after(cmd: Seq<char>, rest: Seq<char>, timer: bool) -> bool {
    if cmd == ".timer"@ && rest == "on"@ {
        true
    } else if cmd == ".timer"@ && rest == "off"@ {
        false
    } else {
        timer
    }
}

fn empty_text() -> (r: String)
    ensures
        r@ == Seq::<char>::empty(),
{
    let r = String::new();
    proof {
        assert(r@ =~= Seq::<char>::empty());
    }
    r
}

fn say(line: &str) -> (r: Reply)
    ensures
        r@ == said(line@),
{
    Reply { out: join2(line, "\n"), err: empty_text(), more: true }
}

fn complain(line: &str) -> (r: Reply)
    ensures
        r@ == complained(line@),
{
    Reply { out: empty_text(), err: join2(line, "\n"), more: true }
}

fn find_names(items: &Vec<CypherValue>, found: &mut Vec<String>)
    ensures
        text::texts_view(final(found)@) == names_in(
            value::vals_view(items@),
            text::texts_view(old(found)@),
            items@.len() as int,
        ),
{
    let ghost first = text::texts_view(found@);
    let ghost want = value::vals_view(items@);
    let mut i: usize = 0;
    while i < items.len()
        invariant
            i <= items.len(),
            want == value::vals_view(items@),
            text::texts_view(found@) == names_in(want, first, i as int),
        decreases items.len() - i,
    {
        proof {
            assert(want[i as int] == items@[i as int]@);
        }
        if let CypherValue::String(s) = &items[i] {
            if !list_has(&*found, s.as_str()) {
                let c = s.clone();
                proof {
                    assert(text::texts_view(found@.push(c)) =~= text::texts_view(found@).push(c@));
                }
                found.push(c);
            }
        }
        i += 1;
    }
}

fn find_label_names(rows: &Vec<ResultRow>) -> (r: Vec<String>)
    ensures
        text::texts_view(r@) == label_names(executor::rows_view(rows@), rows@.len() as int),
{
    let ghost want = executor::rows_view(rows@);
    let mut out: Vec<String> = Vec::new();
    let mut i: usize = 0;
    proof {
        assert(text::texts_view(out@) =~= Seq::<Seq<char>>::empty());
    }
    while i < rows.len()
        invariant
            i <= rows.len(),
            want == executor::rows_view(rows@),
            text::texts_view(out@) == label_names(want, i as int),
        decreases rows.len() - i,
    {
        let values = &rows[i].values;
        proof {
            assert(want[i as int] == value::vals_view(values@));
        }
        if values.len() > 0 {
            proof {
                assert(value::vals_view(values@)[0] == values@[0]@);
            }
            if let CypherValue::List(items) = &values[0] {
                find_names(items, &mut out);
            }
        }
        i += 1;
    }
    out
}

/// What the shell says of the labels that a query has found.
pub fn reply_labels(r: &Result<QueryResult, CypherError>) -> (reply: Reply)
    ensures
        reply@ == labels_reply(
            match *r {
                Ok(t) => Ok(t@),
                Err(e) => Err(e@),
            },
        ),
{
    match r {
        Err(e) => complain(failure(e).as_str()),
        Ok(t) => {
            let names = find_label_names(&t.rows);
            if names.len() == 0 {
                say("(no labels)")
            } else {
                say(join_texts(&sort_texts(&names), "\n").as_str())
            }
        },
    }
}

// ---------------------------------------------------------------------------
// The shell
// ---------------------------------------------------------------------------

/// A graph with the settings of a shell.
pub struct Shell<S: StorageBackend, O: Outside> {
    pub graph: Graph<S, O>,
    pub mode: OutputMode,
    pub timer: bool,
}

/// A command runs the query for the labels.
pub open spec fn asks_labels(cmd: Seq<char>, st: StoreV) -> bool {
    cmd == ".tables"@ && store::node_count(st) > 0
}

impl<S: StorageBackend, O: Outside> Shell<S, O> {
    pub fn new(graph: Graph<S, O>, mode: OutputMode, timer: bool) -> (r: Self)
        ensures
            r.graph == graph,
            r.mode == mode,
            r.timer == timer,
    {
        Shell { graph, mode, timer }
    }

    /// Runs a query and shows its result in the mode of the shell.
    pub fn run_query(&mut self, query: &str) -> (r: Ran)
        requires
            old(self).graph.valid(),
        ensures
            final(self).graph.valid(),
            final(self).graph.answers() == old(self).graph.answers(),
            final(self).mode == old(self).mode,
            final(self).timer == old(self).timer,
            ({
                let q = text::trimmed(query@);
                let done = graph::queried(
                    q,
                    old(self).graph.env(seq![]),
                    old(self).graph.store(),
                );
                if q.len() == 0 {
                    r@ == RanV::Nothing && final(self).graph == old(self).graph
                } else {
                    &&& r@ == reported(old(self).graph.answers(), old(self).mode, done.0)
                    &&& final(self).graph.store() == done.1
                    &&& final(self).graph.random_seed() == number::xorshift(
                        old(self).graph.random_seed(),
                    )
                }
            }),
    {
        let q = trim_text(query);
        if chars_of(q.as_str()).len() == 0 {
            return Ran::Nothing;
        }
        match self.graph.execute(q.as_str()) {
            Err(e) => Ran::Failed(failure(&e)),
            Ok(t) => match render(self.mode, &t, self.graph.outside()) {
                Ok(s) => Ran::Shown(s, t.rows.len()),
                Err(e) => Ran::Failed(failure(&e)),
            },
        }
    }

    /// Carries out a command.
    pub fn handle_dot_command(&mut self, input: &str) -> (r: Reply)
        requires
            old(self).graph.valid(),
        ensures
            final(self).graph.valid(),
            final(self).graph.answers() == old(self).graph.answers(),
            ({
                let (cmd, rest) = command_parts(input@);
                let st = old(self).graph.store();
                let done = graph::queried(LABELS_QUERY@, old(self).graph.env(seq![]), st);
                &&& r@ == reply(
                    cmd,
                    rest,
                    old(self).mode,
                    old(self).timer,
                    old(self).graph.answers(),
                    st,
                    done.0,
                )
                &&& final(self).mode == mode_after(cmd, rest, old(self).mode)
                &&& final(self).timer == timer_after(cmd, rest, old(self).timer)
                &&& if asks_labels(cmd, st) {
                    final(self).graph.store() == done.1 && final(self).graph.random_seed()
                        == number::xorshift(old(self).graph.random_seed())
                } else {
                    final(self).graph == old(self).graph
                }
            }),
    {
        let (cmd, rest) = split_command(input);
        let c = cmd.as_str();
        proof {
            lemma_names_differ();
        }
        if same_text(c, ".help") || same_text(c, "\\?") {
            say(HELP_TEXT)
        } else if same_text(c, ".quit") || same_text(c, ".exit") || same_text(c, "\\q") {
            Reply { out: empty_text(), err: empty_text(), more: false }
        } else if same_text(c, ".timer") {
            self.set_timer(rest.as_str())
        } else if same_text(c, ".mode") {
            self.set_mode(rest.as_str())
        } else if same_text(c, ".tables") {
            if self.graph.node_count() == 0 {
                say("(no nodes)")
            } else {
                let found = self.graph.execute(LABELS_QUERY);
                reply_labels(&found)
            }
        } else if same_text(c, ".stats") {
            let nodes = join2("Nodes : ", u64_text(self.graph.node_count() as u64).as_str());
            let edges = u64_text(self.graph.edge_count() as u64);
            say(join3(nodes.as_str(), "\nEdges : ", edges.as_str()).as_str())
        } else if same_text(c, ".export") {
            match self.graph.export_cypher() {
                Ok(t) => Reply { out: t, err: empty_text(), more: true },
                Err(e) => complain(failure(&e).as_str()),
            }
        } else {
            let line = join3("Unknown command '", c, "'. Type '.help' for usage.");
            complain(line.as_str())
        }
    }

    fn set_timer(&mut self, rest: &str) -> (r: Reply)
        ensures
            final(self).graph == old(self).graph,
            final(self).mode == old(self).mode,
            final(self).timer == timer_after(".timer"@, rest@, old(self).timer),
            r@ == (if rest@ == "on"@ {
                said("Timer: on"@)
            } else if rest@ == "off"@ {
                said("Timer: off"@)
            } else {
                said(
                    "Timer is currently "@ + (if old(self).timer {
                        "on"@
                    } else {
                        "off"@
                    }),
                )
            }),
    {
        if same_text(rest, "on") {
            self.timer = true;
            say("Timer: on")
        } else if same_text(rest, "off") {
            self.timer = false;
            say("Timer: off")
        } else {
            let now = if self.timer {
                "on"
            } else {
                "off"
            };
            say(join2("Timer is currently ", now).as_str())
        }
    }

    fn set_mode(&mut self, rest: &str) -> (r: Reply)
        ensures
            final(self).graph == old(self).graph,
            final(self).timer == old(self).timer,
            final(self).mode == mode_after(".mode"@, rest@, old(self).mode),
            r@ == (if rest@.len() == 0 {
                said("Current mode: "@ + display::mode_name(old(self).mode))
            } else {
                match display::mode_named(rest@) {
                    Some(m) => said("Output mode: "@ + display::mode_name(m)),
                    None => complained(
                        "Unknown mode '"@ + rest@ + "'. Valid modes: table, csv, json, line"@,
                    ),
                }
            }),
    {
        if chars_of(rest).len() == 0 {
            return say(join2("Current mode: ", self.mode.as_str()).as_str());
        }
        match OutputMode::parse(rest) {
            Some(m) => {
                self.mode = m;
                say(join2("Output mode: ", m.as_str()).as_str())
            },
            None => {
                let line = join3("Unknown mode '", rest, "'. Valid modes: table, csv, json, line");
                complain(line.as_str())
            },
        }
    }
}

/// The names of commands that change the shell are not those of others.
proof fn lemma_names_differ()
    ensures
        ".timer"@ != ".mode"@,
        ".timer"@ != ".tables"@,
        ".mode"@ != ".tables"@,
        ".help"@ != ".mode"@ && ".help"@ != ".timer"@ && ".help"@ != ".tables"@,
        "\\?"@ != ".mode"@ && "\\?"@ != ".timer"@ && "\\?"@ != ".tables"@,
        ".quit"@ != ".mode"@ && ".quit"@ != ".timer"@ && ".quit"@ != ".tables"@,
        ".exit"@ != ".mode"@ && ".exit"@ != ".timer"@ && ".exit"@ != ".tables"@,
        "\\q"@ != ".mode"@ && "\\q"@ != ".timer"@ && "\\q"@ != ".tables"@,
{
    reveal_strlit(".timer");
    reveal_strlit(".mode");
    reveal_strlit(".tables");
    reveal_strlit(".help");
    reveal_strlit(".quit");
    reveal_strlit(".exit");
    reveal_strlit("\\?");
    reveal_strlit("\\q");
    assert(".timer"@[2] != ".mode"@[2]);
    assert(".help"@[1] != ".mode"@[1]);
    assert(".quit"@[1] != ".mode"@[1]);
    assert(".exit"@[1] != ".mode"@[1]);
    assert("\\?"@[0] != ".mode"@[0]);
    assert("\\?"@[0] != ".timer"@[0]);
    assert("\\?"@[0] != ".tables"@[0]);
    assert("\\q"@[0] != ".mode"@[0]);
    assert("\\q"@[0] != ".timer"@[0]);
    assert("\\q"@[0] != ".tables"@[0]);
}

} // verus!
