use egrph::display::{
    csv_escape, cypher_to_display, cypher_to_json, date_to_display, render, show_date, show_time,
    time_to_display, OutputMode,
};
use egrph::json::{
    cypher_value_to_json, error_to_json, json_to_cypher_value, parse_json, parse_parameters,
    result_to_json, rows_to_json, rows_to_strict_json, take_parameters, Json,
};
use egrph::keys::{
    constraint_key, key_id, label_key, label_prefix, node_key_key, not_null_key,
    prop_idx_value_bytes, property_type_key, read_u64, u64_key, write_u64,
};
use egrph::literals::{parse_integer_value, parse_string_content, quote_text};
use egrph::ops::compare_values;
use egrph::outside::{Answer, Answers, ArithOp, MathFn, Outside, Request};
use egrph::shell::{
    interrupt, prompt, split_script, strip_semicolons, take_line, Line, Ran, Shell,
};
use egrph::snapshot::{restore, take};
use egrph::stored::{read_constraint, StoredConstraint};
use egrph::value::{Parameters, PropertyMap};
use egrph::{
    CypherError, CypherValue, Graph, InMemoryGraph, MemoryStorage, PropertyValue, QueryResult,
    StorageBackend,
};
use std::cmp::Ordering;

/// Answers with the floating-point numbers of the machine.
struct Floats;

fn arith(op: ArithOp, a: f64, b: f64) -> f64 {
    match op {
        ArithOp::Add => a + b,
        ArithOp::Sub => a - b,
        ArithOp::Mul => a * b,
        ArithOp::Div => a / b,
        ArithOp::Rem => a % b,
        ArithOp::Pow => a.powf(b),
        ArithOp::Atan2 => a.atan2(b),
    }
}

fn math(f: MathFn, a: f64) -> f64 {
    match f {
        MathFn::Ceil => a.ceil(),
        MathFn::Floor => a.floor(),
        MathFn::Round => a.round(),
        MathFn::Sqrt => a.sqrt(),
        MathFn::Ln => a.ln(),
        MathFn::Log10 => a.log10(),
        MathFn::Exp => a.exp(),
        MathFn::Sin => a.sin(),
        MathFn::Cos => a.cos(),
        MathFn::Tan => a.tan(),
        MathFn::Asin => a.asin(),
        MathFn::Acos => a.acos(),
        MathFn::Atan => a.atan(),
        MathFn::Degrees => a.to_degrees(),
        MathFn::Radians => a.to_radians(),
        MathFn::Cot => 1.0 / a.tan(),
        MathFn::Haversin => (1.0 - a.cos()) / 2.0,
    }
}

fn floats_of(v: &Vec<u64>) -> Vec<f64> {
    v.iter().map(|b| f64::from_bits(*b)).collect()
}

impl Outside for Floats {
    fn answer(&self, request: &Request) -> Option<Answer> {
        let float = |x: f64| Some(Answer::Float(x.to_bits()));
        match request {
            Request::Arith(op, a, b) => {
                float(arith(*op, f64::from_bits(*a), f64::from_bits(*b)))
            }
            Request::Math(f, a) => float(math(*f, f64::from_bits(*a))),
            Request::ParseFloat(s) => match s.parse::<f64>() {
                Ok(x) => float(x),
                Err(_) => Some(Answer::NoNumber),
            },
            Request::FormatFloat(b) => Some(Answer::Text(format!("{}", f64::from_bits(*b)))),
            Request::DebugFloat(b) => Some(Answer::Text(format!("{:?}", f64::from_bits(*b)))),
            Request::FormatTenths(b) => Some(Answer::Text(format!("{:.1}", f64::from_bits(*b)))),
            Request::Sum(v) => float(floats_of(v).iter().sum()),
            Request::Mean(v) => {
                let n = v.len() as f64;
                float(floats_of(v).iter().sum::<f64>() / n)
            }
            Request::Stdev(v, sample) => {
                let xs = floats_of(v);
                let n = xs.len() as f64;
                let mean = xs.iter().sum::<f64>() / n;
                let squares: f64 = xs.iter().map(|x| (x - mean) * (x - mean)).sum();
                let d = if *sample { n - 1.0 } else { n };
                float((squares / d).sqrt())
            }
            Request::PercentileCont(v, p) => {
                let xs = floats_of(v);
                let at = f64::from_bits(*p) * (xs.len() - 1) as f64;
                let low = at.floor() as usize;
                let high = at.ceil() as usize;
                let part = at - low as f64;
                float(if low == high { xs[low] } else { xs[low] * (1.0 - part) + xs[high] * part })
            }
            Request::PercentileIndex(p, n) => {
                Some(Answer::Index((f64::from_bits(*p) * *n as f64) as u64))
            }
            Request::ReadFile(_) => Some(Answer::Failed("no such file".to_string())),
        }
    }
}

fn new_graph() -> Graph<MemoryStorage, Floats> {
    Graph::with_outside(MemoryStorage::new(), Floats)
}

fn first(r: &QueryResult) -> &CypherValue {
    &r.rows[0].values[0]
}

fn text(s: &str) -> CypherValue {
    CypherValue::String(s.to_string())
}

fn value_of(q: &str) -> CypherValue {
    let mut g = new_graph();
    first(&g.execute(q).unwrap()).clone()
}

fn float(x: f64) -> CypherValue {
    CypherValue::Float(x.to_bits())
}

#[test]
fn each_error_has_its_kind() {
    let mut g = new_graph();
    assert!(matches!(g.execute("MATCH ("), Err(CypherError::ParseError(_))));
    assert!(matches!(g.execute(""), Err(CypherError::ParseError(_))));
    assert!(matches!(
        g.execute("CREATE (:A {x: null})"),
        Err(CypherError::TypeError(_))
    ));
    assert!(matches!(
        g.execute("MERGE shortestPath((a)-[*]->(b))"),
        Err(CypherError::SemanticError(_))
    ));
    assert!(matches!(
        g.execute("MANDATORY MATCH (n:None) RETURN n"),
        Err(CypherError::RuntimeError(_))
    ));
    g.execute("CREATE CONSTRAINT FOR (n:A) REQUIRE n.x IS UNIQUE").unwrap();
    g.execute("CREATE (:A {x: 1})").unwrap();
    assert!(matches!(
        g.execute("CREATE (:A {x: 1})"),
        Err(CypherError::ConstraintError(_))
    ));
}

#[test]
fn an_error_has_a_text() {
    assert_eq!(
        CypherError::ParseError("x".to_string()).to_string(),
        "Parse error: x"
    );
    assert_eq!(
        CypherError::NotImplemented("y".to_string()).to_string(),
        "Not implemented: y"
    );
}

#[test]
fn a_missing_answer_is_reported() {
    let mut g = InMemoryGraph::new();
    let asked = Request::Arith(ArithOp::Add, 1.5f64.to_bits(), 2.0f64.to_bits());
    let numeral = |s: &str, x: f64| {
        (
            Request::ParseFloat(s.to_string()),
            Answer::Float(x.to_bits()),
        )
    };
    let mut answers = Answers::new();
    let (r, a) = numeral("1.5", 1.5);
    answers.insert(r, a);
    let (r, a) = numeral("2.0", 2.0);
    answers.insert(r, a);
    g.set_outside(answers);
    match g.execute("RETURN 1.5 + 2.0") {
        Err(CypherError::Pending(r)) => assert!(r.same(&asked)),
        other => panic!("Expected a request, got {:?}", other),
    }
}

#[test]
fn a_failed_query_leaves_the_graph() {
    let mut g = new_graph();
    g.execute("CREATE (:A {x: 1})").unwrap();
    let before = g.export_cypher().unwrap();
    assert!(g.execute("CREATE (:B {x: 1}) RETURN").is_err());
    assert_eq!(g.export_cypher().unwrap(), before);
}

#[test]
fn no_identifier_is_given_twice() {
    let mut g = new_graph();
    let a = g.create_node(vec![], PropertyMap::new());
    let b = g.create_node(vec![], PropertyMap::new());
    g.execute("MATCH (n) DELETE n").unwrap();
    let c = g.create_node(vec![], PropertyMap::new());
    assert_eq!((a, b, c), (0, 1, 2));
    assert!(g.get_node(a).is_none());
    assert_eq!(g.node_count(), 1);
}

#[test]
fn an_edge_needs_both_ends() {
    let mut g = new_graph();
    let a = g.create_node(vec![], PropertyMap::new());
    assert_eq!(
        g.create_edge("R".to_string(), a, 7, PropertyMap::new()),
        Err("Destination node 7 not found".to_string())
    );
    assert_eq!(
        g.create_edge("R".to_string(), 9, a, PropertyMap::new()),
        Err("Source node 9 not found".to_string())
    );
    assert_eq!(g.edge_count(), 0);
}

#[test]
fn reading_keeps_the_graph() {
    let mut g = new_graph();
    g.execute("CREATE (:A {x: 1})-[:R]->(:B {y: 2})").unwrap();
    let before = g.export_cypher().unwrap();
    g.execute("MATCH (a)-[r]->(b) WITH a, b ORDER BY a.x RETURN DISTINCT a, b LIMIT 3")
        .unwrap();
    assert_eq!(g.export_cypher().unwrap(), before);
}

#[test]
fn merge_twice_creates_once() {
    let mut g = new_graph();
    for _ in 0..3 {
        g.execute("MERGE (:A {x: 1, y: 'z'})").unwrap();
    }
    assert_eq!(g.node_count(), 1);
}

#[test]
fn three_valued_logic() {
    assert_eq!(value_of("RETURN null AND false"), CypherValue::Boolean(false));
    assert_eq!(value_of("RETURN null OR true"), CypherValue::Boolean(true));
    assert_eq!(value_of("RETURN null XOR true"), CypherValue::Null);
    assert_eq!(value_of("RETURN NOT null"), CypherValue::Null);
    assert_eq!(value_of("RETURN null = null"), CypherValue::Null);
}

#[test]
fn arithmetic_on_integers() {
    assert_eq!(value_of("RETURN 7 / 2"), CypherValue::Integer(3));
    assert_eq!(value_of("RETURN -7 % 3"), CypherValue::Integer(-1));
    assert_eq!(value_of("RETURN 2 + 3 * 4 - 1"), CypherValue::Integer(13));
    assert_eq!(value_of("RETURN (2 + 3) * 4"), CypherValue::Integer(20));
    assert_eq!(value_of("RETURN 2 ^ 3"), float(8.0));
}

#[test]
fn arithmetic_on_floats() {
    assert_eq!(value_of("RETURN 1.5 + 2"), float(3.5));
    assert_eq!(value_of("RETURN sqrt(2.25)"), float(1.5));
    assert_eq!(value_of("RETURN 1.0 < 2"), CypherValue::Boolean(true));
}

#[test]
fn integers_in_other_bases() {
    assert_eq!(parse_integer_value("0x1F"), Ok(31));
    assert_eq!(parse_integer_value("-0o17"), Ok(-15));
    assert_eq!(parse_integer_value("-42"), Ok(-42));
    assert_eq!(
        parse_integer_value("-9223372036854775807"),
        Ok(-9223372036854775807)
    );
    assert!(parse_integer_value("9223372036854775808").is_err());
}

#[test]
fn strings_with_escapes() {
    assert_eq!(
        parse_string_content("'a\\tb\\u0041\\\\'"),
        Ok("a\tbA\\".to_string())
    );
    assert_eq!(parse_string_content("'\\q'"), Ok("\\q".to_string()));
    assert!(parse_string_content("'\\u12'").is_ok());
    assert!(parse_string_content("'\\uZZZZ'").is_err());
    assert!(parse_string_content("'\\uD800'").is_err());
    assert!(parse_string_content("'").is_err());
    assert_eq!(quote_text("a\"b\n"), "\"a\\\"b\\n\"");
    assert_eq!(
        parse_string_content(&quote_text("a\"b\\n\t\r")),
        Ok("a\"b\\n\t\r".to_string())
    );
}

#[test]
fn letters_beyond_ascii() {
    assert_eq!(value_of("RETURN toUpper('straße')"), text("STRASSE"));
    assert_eq!(value_of("RETURN toLower('ÄÖ')"), text("äö"));
    assert_eq!(value_of("RETURN size('äö')"), CypherValue::Integer(2));
}

#[test]
fn a_regular_expression_matches_the_whole() {
    assert_eq!(value_of("RETURN 'abc' =~ 'b'"), CypherValue::Boolean(false));
    assert_eq!(value_of("RETURN 'abc' =~ '.b.'"), CypherValue::Boolean(true));
    assert_eq!(value_of("RETURN 'abc' =~ '('"), CypherValue::Null);
}

#[test]
fn a_csv_file_is_loaded() {
    let data = "name,age\nAlice,30\n\"B, ob\",\n";
    let mut answers = Answers::new();
    answers.insert(
        Request::ReadFile("/people.csv".to_string()),
        Answer::Bytes(data.as_bytes().to_vec()),
    );
    let mut g = Graph::with_outside(MemoryStorage::new(), answers);
    let r = g
        .execute("LOAD CSV WITH HEADERS FROM 'file:///people.csv' AS row RETURN row.name, row.age")
        .unwrap();
    assert_eq!(r.rows.len(), 2);
    assert_eq!(r.rows[0].values[0], text("Alice"));
    assert_eq!(r.rows[0].values[1], text("30"));
    assert_eq!(r.rows[1].values[0], text("B, ob"));
    let r = g
        .execute("LOAD CSV FROM 'file:///people.csv' AS row RETURN row[0]")
        .unwrap();
    assert_eq!(r.rows.len(), 3);
    assert_eq!(r.rows[0].values[0], text("name"));
}

#[test]
fn a_file_that_cannot_be_read() {
    let mut g = new_graph();
    assert_eq!(
        g.execute("LOAD CSV FROM 'file:///none.csv' AS row RETURN row").unwrap_err(),
        CypherError::RuntimeError("LOAD CSV: cannot open '/none.csv': no such file".to_string())
    );
}

#[test]
fn a_file_that_cannot_be_read_to_its_end() {
    let error = |bytes: &str, query: &str| {
        let mut answers = Answers::new();
        answers.insert(
            Request::ReadFile("/d".to_string()),
            Answer::Broken(bytes.as_bytes().to_vec(), "is a directory".to_string()),
        );
        match Graph::with_outside(MemoryStorage::new(), answers).execute(query) {
            Err(CypherError::RuntimeError(m)) => m,
            other => panic!("got {other:?}"),
        }
    };
    let headed = "LOAD CSV WITH HEADERS FROM '/d' AS row RETURN row";
    let plain = "LOAD CSV FROM '/d' AS row RETURN row";
    assert_eq!(error("", headed), "LOAD CSV: failed to read headers: is a directory");
    assert_eq!(error("", plain), "LOAD CSV: failed to read record: is a directory");
    assert_eq!(error("a,b", headed), "LOAD CSV: failed to read headers: is a directory");
    assert_eq!(error("\"a,b\n", headed), "LOAD CSV: failed to read headers: is a directory");
    assert_eq!(error("a,b\n", headed), "LOAD CSV: failed to read record: is a directory");
    assert_eq!(error("a,b\n1,", headed), "LOAD CSV: failed to read record: is a directory");
    assert_eq!(error("a,b\n1,2\n", plain), "LOAD CSV: failed to read record: is a directory");
}

#[test]
fn dates_and_times_are_written() {
    assert_eq!(date_to_display(730_000), "1999-09-03");
    assert_eq!(date_to_display(i32::MAX), "2147483647");
    assert_eq!(time_to_display(1_431_648_000, 0), "2015-05-15T00:00:00+00:00");
    assert_eq!(time_to_display(0, 500_000_000), "1970-01-01T00:00:00.500+00:00");
    assert_eq!(show_date(1, None), "1");
    assert_eq!(show_time(1, 2, None), "1.2");
    assert_eq!(show_time(1, 2, Some("t".to_string())), "t");
}

#[test]
fn values_for_a_reader() {
    let shown = |v: &CypherValue| cypher_to_display(v, &Floats).unwrap();
    assert_eq!(shown(&CypherValue::Null), "NULL");
    assert_eq!(shown(&float(3.0)), "3.0");
    assert_eq!(shown(&float(0.25)), "0.25");
    assert_eq!(shown(&float(1e15)), "1000000000000000");
    assert_eq!(
        shown(&CypherValue::List(vec![CypherValue::Integer(1), text("a")])),
        "[1, a]"
    );
    let mut g = new_graph();
    g.execute("CREATE (:A:B {y: 2.0, x: 'q'})-[:R {w: true}]->(:C)").unwrap();
    let r = g.execute("MATCH (a:A)-[r]->(c) RETURN a, r, c").unwrap();
    assert_eq!(shown(&r.rows[0].values[0]), "(0:A:B  {x: q, y: 2})");
    assert_eq!(shown(&r.rows[0].values[1]), "[0->1:R  {w: true}]");
    assert_eq!(shown(&r.rows[0].values[2]), "(1:C  {})");
}

#[test]
fn values_as_json_text() {
    let shown = |v: &CypherValue| cypher_to_json(v, &Floats).unwrap();
    assert_eq!(shown(&text("a\"b\\")), "\"a\\\"b\\\\\"");
    let mut m = Parameters::new();
    m.insert("b".to_string(), CypherValue::Integer(2));
    m.insert("a".to_string(), CypherValue::Null);
    assert_eq!(shown(&CypherValue::MapValue(m)), "{\"a\": null, \"b\": 2}");
    assert_eq!(shown(&CypherValue::Date(730_000)), "\"1999-09-03\"");
}

#[test]
fn a_field_of_comma_separated_values() {
    assert_eq!(csv_escape("plain"), "plain");
    assert_eq!(csv_escape("a,b"), "\"a,b\"");
    assert_eq!(csv_escape("say \"hi\""), "\"say \"\"hi\"\"\"");
    assert_eq!(csv_escape("two\nlines"), "\"two\nlines\"");
}

#[test]
fn results_in_every_mode() {
    let mut g = new_graph();
    let r = g
        .execute("UNWIND [1, 22] AS n RETURN n, 'v,' + toString(n) AS t")
        .unwrap();
    assert_eq!(
        render(OutputMode::Table, &r, &Floats).unwrap(),
        "┌────┬──────┐\n│ n  │ t    │\n├────┼──────┤\n│ 1  │ v,1  │\n│ 22 │ v,22 │\n└────┴──────┘\n"
    );
    assert_eq!(
        render(OutputMode::Csv, &r, &Floats).unwrap(),
        "n,t\n1,\"v,1\"\n22,\"v,22\"\n"
    );
    assert_eq!(
        render(OutputMode::Line, &r, &Floats).unwrap(),
        "n = 1\nt = v,1\n\nn = 22\nt = v,22\n"
    );
    assert_eq!(
        render(OutputMode::Json, &r, &Floats).unwrap(),
        "[\n  {\n    \"n\": 1,\n    \"t\": \"v,1\"\n  },\n  {\n    \"n\": 22,\n    \"t\": \"v,22\"\n  }\n]\n"
    );
    let none = QueryResult::empty();
    assert_eq!(render(OutputMode::Table, &none, &Floats).unwrap(), "");
    assert_eq!(render(OutputMode::Json, &none, &Floats).unwrap(), "[]\n");
}

#[test]
fn names_of_modes() {
    for m in [
        OutputMode::Table,
        OutputMode::Csv,
        OutputMode::Json,
        OutputMode::Line,
    ] {
        assert_eq!(OutputMode::parse(m.as_str()), Some(m));
    }
    assert_eq!(OutputMode::parse("CSV"), Some(OutputMode::Csv));
    assert_eq!(OutputMode::parse("xml"), None);
}

#[test]
fn lines_of_input() {
    let mut buf = String::new();
    assert_eq!(prompt(&buf), "D ");
    assert!(matches!(take_line(&mut buf, "  MATCH (n) "), Line::More));
    assert_eq!(buf, "MATCH (n)");
    assert_eq!(prompt(&buf), "  ");
    match take_line(&mut buf, "RETURN n ;; ") {
        Line::Query(q) => assert_eq!(q, "MATCH (n) RETURN n "),
        other => panic!("Expected a query, got {:?}", other),
    }
    assert_eq!(buf, "");
    take_line(&mut buf, "MATCH");
    match take_line(&mut buf, " .mode csv") {
        Line::Command(c, discarded) => {
            assert_eq!(c, ".mode csv");
            assert!(discarded);
        }
        other => panic!("Expected a command, got {:?}", other),
    }
    assert_eq!(interrupt(&mut buf), "(use '.exit' or Ctrl-D to quit)");
    take_line(&mut buf, "MATCH");
    assert_eq!(interrupt(&mut buf), "(query discarded)");
    assert_eq!(buf, "");
}

#[test]
fn queries_of_a_script() {
    assert_eq!(
        split_script(" RETURN 1 ;\n\n; RETURN 2"),
        vec!["RETURN 1".to_string(), "RETURN 2".to_string()]
    );
    assert_eq!(strip_semicolons("RETURN 1;;"), "RETURN 1");
}

#[test]
fn commands_of_the_shell() {
    let mut sh = Shell::new(new_graph(), OutputMode::Table, true);
    assert_eq!(sh.handle_dot_command(".tables").out, "(no nodes)\n");
    sh.run_query("CREATE (:B:A), (:B)");
    assert_eq!(sh.handle_dot_command(".tables").out, "A\nB\n");
    assert_eq!(sh.handle_dot_command(".stats").out, "Nodes : 2\nEdges : 0\n");
    assert_eq!(sh.handle_dot_command(".mode").out, "Current mode: table\n");
    assert_eq!(sh.handle_dot_command(".mode  CSV ").out, "Output mode: csv\n");
    assert_eq!(sh.mode, OutputMode::Csv);
    assert_eq!(
        sh.handle_dot_command(".mode xml").err,
        "Unknown mode 'xml'. Valid modes: table, csv, json, line\n"
    );
    assert_eq!(sh.handle_dot_command(".timer").out, "Timer is currently on\n");
    assert_eq!(sh.handle_dot_command(".timer off").out, "Timer: off\n");
    assert!(!sh.timer);
    assert_eq!(
        sh.handle_dot_command(".export").out,
        "CREATE\n  (_0:B:A),\n  (_1:B)"
    );
    assert_eq!(
        sh.handle_dot_command(".what").err,
        "Unknown command '.what'. Type '.help' for usage.\n"
    );
    assert!(sh.handle_dot_command(".help").out.starts_with("Commands:\n"));
    assert!(!sh.handle_dot_command(" .quit ").more);
}

#[test]
fn queries_in_the_shell() {
    let mut sh = Shell::new(new_graph(), OutputMode::Csv, false);
    assert!(matches!(sh.run_query("   "), Ran::Nothing));
    match sh.run_query(" RETURN 1 AS x ") {
        Ran::Shown(t, n) => {
            assert_eq!(t, "x\n1\n");
            assert_eq!(n, 1);
        }
        other => panic!("Expected a result, got {:?}", other),
    }
    match sh.run_query("RETURN") {
        Ran::Failed(m) => assert!(m.starts_with("Error: Parse error: ")),
        other => panic!("Expected an error, got {:?}", other),
    }
}

#[test]
fn an_exported_graph_can_be_created_again() {
    let mut g = new_graph();
    g.execute("CREATE (:A {s: 'q\"\\n', i: -7, b: false, f: 2.0, h: 0.5})-[:R {w: 1}]->(:B:C)")
        .unwrap();
    let q = g.export_cypher().unwrap();
    assert_eq!(
        q,
        "CREATE\n  (_0:A {b: false, f: 2.0, h: 0.5, i: -7, s: \"q\\\"\\n\"}),\n  (_1:B:C),\n  (_0)-[:R {w: 1}]->(_1)"
    );
    let mut h = new_graph();
    h.execute(&q).unwrap();
    assert_eq!(h.export_cypher().unwrap(), q);
}

#[test]
fn a_snapshot_restores_the_graph() {
    let mut m = MemoryStorage::new();
    let a = m.create_node(vec!["A".to_string()], PropertyMap::new());
    let b = m.create_node(vec!["B".to_string()], PropertyMap::new());
    let c = m.create_node(vec![], PropertyMap::new());
    m.create_edge("R".to_string(), a, b, PropertyMap::new()).unwrap();
    m.create_edge("S".to_string(), b, c, PropertyMap::new()).unwrap();
    m.add_unique_constraint("A", "x").unwrap();
    m.delete_node(c, true).unwrap();
    let s = take(&m);
    let r = restore(&s).unwrap();
    assert_eq!(take(&r), s);
    assert_eq!(r.all_node_ids(), vec![a, b]);
    assert_eq!(r.all_edge_ids(), vec![0]);
    assert_eq!(r.outgoing_edges(a).len(), 1);
    let mut broken = take(&m);
    broken.nodes[1] = None;
    assert!(restore(&broken).is_none());
}

#[test]
fn keys_of_a_store_on_disk() {
    assert_eq!(u64_key(258), [0, 0, 0, 0, 0, 0, 1, 2]);
    assert_eq!(read_u64(&write_u64(u64::MAX - 1)), Some(u64::MAX - 1));
    assert_eq!(read_u64(&[1, 2]), None);
    assert_eq!(label_prefix("A"), vec![65, 0]);
    assert_eq!(label_key("A", 1), vec![65, 0, 0, 0, 0, 0, 0, 0, 0, 1]);
    assert_eq!(constraint_key("A", "b"), vec![65, 0, 98]);
    assert_eq!(key_id(&label_key("A", 77), 2), Some(77));
    assert_eq!(
        prop_idx_value_bytes(&PropertyValue::String("ab".to_string())),
        vec![115, 0, 0, 0, 2, 97, 98]
    );
    assert_eq!(prop_idx_value_bytes(&PropertyValue::Bool(true)), vec![98, 1]);
}

#[test]
fn shortest_paths() {
    let mut g = new_graph();
    g.execute("CREATE (a:N {n: 1})-[:R]->(b:N {n: 2})-[:R]->(c:N {n: 3}), (a)-[:R]->(c)")
        .unwrap();
    let r = g
        .execute(
            "MATCH (a:N {n: 1}), (c:N {n: 3}) MATCH p = shortestPath((a)-[:R*]->(c)) RETURN length(p)",
        )
        .unwrap();
    assert_eq!(r.rows.len(), 1);
    assert_eq!(first(&r), &CypherValue::Integer(1));
}

#[test]
fn kinds_of_constraints() {
    let mut g = new_graph();
    g.execute("CREATE CONSTRAINT FOR (n:A) REQUIRE n.x IS NOT NULL").unwrap();
    assert!(g.execute("CREATE (:A)").is_err());
    g.execute("CREATE CONSTRAINT key FOR (n:B) REQUIRE (n.x, n.y) IS NODE KEY").unwrap();
    g.execute("CREATE (:B {x: 1, y: 2})").unwrap();
    assert!(g.execute("CREATE (:B {x: 1, y: 2})").is_err());
    g.execute("CREATE (:B {x: 1, y: 3})").unwrap();
    g.execute("CREATE CONSTRAINT FOR (n:C) REQUIRE n.x IS :: STRING").unwrap();
    assert!(g.execute("CREATE (:C {x: 1})").is_err());
    g.execute("CREATE (:C {x: 'a'})").unwrap();
}

#[test]
fn rows_are_distinct_limited_and_skipped() {
    let mut g = new_graph();
    let r = g
        .execute("UNWIND [3, 1, 3, 2, 1] AS n RETURN DISTINCT n ORDER BY n SKIP 1 LIMIT 5")
        .unwrap();
    let got: Vec<CypherValue> = r.rows.iter().map(|x| x.values[0].clone()).collect();
    assert_eq!(got, vec![CypherValue::Integer(2), CypherValue::Integer(3)]);
    assert!(g.execute("RETURN 1 LIMIT -1").is_err());
}

#[test]
fn statistics_of_a_group() {
    let q = "UNWIND [1, 2, 3, 4] AS n RETURN ";
    assert_eq!(value_of(&format!("{q}stDevP(n)")), float(1.25f64.sqrt()));
    assert_eq!(value_of(&format!("{q}percentileCont(n, 0.5)")), float(2.5));
    assert_eq!(value_of(&format!("{q}percentileDisc(n, 0.5)")), CypherValue::Integer(2));
    assert_eq!(value_of(&format!("{q}avg(n)")), float(2.5));
}

#[test]
fn random_numbers_follow_the_seed() {
    let draw = |clock: u64| {
        let mut g = new_graph();
        g.reseed(clock);
        first(&g.execute("RETURN rand()").unwrap()).clone()
    };
    assert_eq!(draw(5), draw(5));
    assert_ne!(draw(5), draw(6));
}

#[test]
fn plans_are_kept_without_a_trace() {
    let mut g = new_graph();
    for i in 0..1100 {
        let q = format!("RETURN {i} AS x");
        assert_eq!(first(&g.execute(&q).unwrap()), &CypherValue::Integer(i));
    }
    assert_eq!(
        first(&g.execute("RETURN 1099 AS x").unwrap()),
        &CypherValue::Integer(1099)
    );
}

#[test]
fn comments_and_quoted_names() {
    let mut g = new_graph();
    g.execute("CREATE (:`My Label` {`a b`: 1}) // a remark").unwrap();
    let r = g
        .execute("MATCH (n:`My Label`) /* here */ RETURN n.`a b`")
        .unwrap();
    assert_eq!(first(&r), &CypherValue::Integer(1));
}

fn from_json(j: &Json) -> serde_json::Value {
    match j {
        Json::Null => serde_json::Value::Null,
        Json::Bool(b) => serde_json::Value::Bool(*b),
        Json::Integer(i) => serde_json::Value::from(*i),
        Json::Unsigned(u) => serde_json::Value::from(*u),
        Json::Float(b) => serde_json::Value::from(f64::from_bits(*b)),
        Json::Text(s) => serde_json::Value::from(s.clone()),
        Json::List(items) => serde_json::Value::Array(items.iter().map(from_json).collect()),
        Json::Object(m) => {
            serde_json::Value::Object(m.iter().map(|(k, v)| (k.clone(), from_json(v))).collect())
        }
    }
}

fn exec_with_params(
    g: &mut Graph<MemoryStorage, Floats>,
    q: &str,
    params: &str,
) -> serde_json::Value {
    match parse_parameters(params) {
        Err(m) => {
            let mut failed = serde_json::Map::new();
            failed.insert("error".to_string(), serde_json::Value::from(m));
            serde_json::Value::Object(failed)
        }
        Ok(p) => match g.execute_with_params(q, &p) {
            Ok(r) => from_json(&result_to_json(&r)),
            Err(e) => from_json(&error_to_json(&e)),
        },
    }
}

#[test]
fn execute_with_params_integer_roundtrip() {
    let mut g = new_graph();
    let v = exec_with_params(
        &mut g,
        "CREATE (n:Log {id: $id, ts: $ts}) RETURN n.id AS id, n.ts AS ts",
        r#"{"id":"u1","ts":1715600000000}"#,
    );
    assert_eq!(v["columns"], serde_json::Value::from(vec!["id", "ts"]));
    assert_eq!(v["rows"][0][0], serde_json::Value::from("u1"));
    assert_eq!(v["rows"][0][1], serde_json::Value::from(1_715_600_000_000_i64));
}

#[test]
fn execute_with_params_string_escapes_safely() {
    let mut g = new_graph();
    let v = exec_with_params(
        &mut g,
        "CREATE (n:U {name: $name}) RETURN n.name AS name",
        r#"{"name":"O'Reilly"}"#,
    );
    assert_eq!(v["rows"][0][0], serde_json::Value::from("O'Reilly"));
}

#[test]
fn execute_with_params_unwind_batch() {
    let mut g = new_graph();
    let v = exec_with_params(
        &mut g,
        "UNWIND $rows AS r CREATE (n:Log {id: r.id, ts: r.ts}) RETURN count(n) AS c",
        r#"{"rows":[{"id":"a","ts":1},{"id":"b","ts":2},{"id":"c","ts":3}]}"#,
    );
    assert_eq!(v["rows"][0][0], serde_json::Value::from(3));
    assert_eq!(g.node_count(), 3);
}

#[test]
fn execute_with_params_invalid_json_returns_error() {
    let mut g = new_graph();
    let v = exec_with_params(&mut g, "RETURN 1", "not json");
    assert!(v.get("error").is_some(), "got: {v}");
}

#[test]
fn execute_with_params_non_object_returns_error() {
    let mut g = new_graph();
    let v = exec_with_params(&mut g, "RETURN 1", "[1,2,3]");
    assert!(v.get("error").is_some(), "got: {v}");
}

#[test]
fn nodes_and_large_numbers_as_json() {
    assert_eq!(
        json_to_cypher_value(&Json::Unsigned(u64::MAX)),
        float(u64::MAX as f64)
    );
    assert_eq!(json_to_cypher_value(&Json::Unsigned(5)), CypherValue::Integer(5));
    assert_eq!(cypher_value_to_json(&float(f64::NAN)), Json::Null);
    let mut g = new_graph();
    g.execute("CREATE (:A {x: 1})").unwrap();
    let r = g.execute("MATCH (n) RETURN n").unwrap();
    assert_eq!(
        cypher_value_to_json(first(&r)),
        Json::Object(vec![
            ("_id".to_string(), Json::Unsigned(0)),
            (
                "_labels".to_string(),
                Json::List(vec![Json::Text("A".to_string())])
            ),
            (
                "_properties".to_string(),
                Json::Object(vec![("x".to_string(), Json::Integer(1))])
            ),
        ])
    );
}

#[test]
fn plain_values_come_back_from_json() {
    let v = value_of("RETURN {a: [1, 2.5, 'x', null, true], b: {c: -1}}");
    assert_eq!(json_to_cypher_value(&cypher_value_to_json(&v)), v);
}

#[test]
fn an_exported_graph_is_numbered_anew() {
    let mut g = new_graph();
    g.execute("CREATE (:Gone), (a:A {x: -2.5, big: 9223372036854775807}), (b:match {t: 'it\\'s'})")
        .unwrap();
    g.execute("MATCH (a:A), (b:match) CREATE (a)-[:create {k: true}]->(b), (b)-[:SELF]->(b)")
        .unwrap();
    g.execute("MATCH (n:Gone) DELETE n").unwrap();
    let q = g.export_cypher().unwrap();
    assert_eq!(
        q,
        "CREATE\n  (_1:A {big: 9223372036854775807, x: -2.5}),\n  (_2:match {t: \"it's\"}),\n  (_1)-[:create {k: true}]->(_2),\n  (_2)-[:SELF]->(_2)"
    );
    let mut h = new_graph();
    h.execute(&q).unwrap();
    assert_eq!(h.node_count(), 2);
    assert_eq!(h.edge_count(), 2);
    let n = h.get_node(0).unwrap();
    assert_eq!(n.labels, vec!["A".to_string()]);
    assert_eq!(n.properties.get("x"), Some(&PropertyValue::Float((-2.5f64).to_bits())));
    let e = h.get_edge(0).unwrap();
    assert_eq!((e.src, e.dst, e.label.as_str()), (0, 1, "create"));
    let s = h.get_edge(1).unwrap();
    assert_eq!((s.src, s.dst, s.label.as_str()), (1, 1, "SELF"));
}

#[test]
fn the_least_integer_cannot_be_read_back() {
    let mut g = new_graph();
    let mut props = PropertyMap::new();
    props.insert("x".to_string(), PropertyValue::Int(i64::MIN));
    g.create_node(vec![], props);
    let q = g.export_cypher().unwrap();
    assert_eq!(q, "CREATE\n  (_0 {x: -9223372036854775808})");
    assert!(new_graph().execute(&q).is_err());
}

#[test]
fn rows_are_sorted_by_several_keys() {
    let mut g = new_graph();
    let r = g
        .execute(
            "UNWIND [[2, 'b'], [1, 'z'], [2, 'a'], [1, 'y']] AS p \
             RETURN p[0] AS n, p[1] AS t ORDER BY n DESC, t",
        )
        .unwrap();
    let got: Vec<(CypherValue, CypherValue)> = r
        .rows
        .iter()
        .map(|x| (x.values[0].clone(), x.values[1].clone()))
        .collect();
    assert_eq!(
        got,
        vec![
            (CypherValue::Integer(2), text("a")),
            (CypherValue::Integer(2), text("b")),
            (CypherValue::Integer(1), text("y")),
            (CypherValue::Integer(1), text("z")),
        ]
    );
}

#[test]
fn each_row_is_in_one_group() {
    let mut g = new_graph();
    let r = g
        .execute(
            "UNWIND [[1, 5], [2, 6], [1, 3]] AS p \
             RETURN p[0] AS k, count(*) AS n, min(p[1]) AS lo, max(p[1]) AS hi ORDER BY k",
        )
        .unwrap();
    assert_eq!(r.rows.len(), 2);
    assert_eq!(
        r.rows[0].values,
        vec![
            CypherValue::Integer(1),
            CypherValue::Integer(2),
            CypherValue::Integer(3),
            CypherValue::Integer(5),
        ]
    );
    assert_eq!(
        r.rows[1].values,
        vec![
            CypherValue::Integer(2),
            CypherValue::Integer(1),
            CypherValue::Integer(6),
            CypherValue::Integer(6),
        ]
    );
}

#[test]
fn a_new_node_is_found_by_its_labels() {
    let mut g = Graph::new_with_storage(MemoryStorage::new());
    let a = g.create_node(vec!["A".to_string()], PropertyMap::new());
    let b = g.create_node(vec!["A".to_string(), "B".to_string()], PropertyMap::new());
    let found: Vec<u64> = g.match_nodes(Some("A")).iter().map(|n| n.id).collect();
    assert_eq!(found, vec![a, b]);
    let found: Vec<u64> = g.match_nodes(Some("B")).iter().map(|n| n.id).collect();
    assert_eq!(found, vec![b]);
    assert_eq!(g.match_nodes(None).len(), 2);
    assert!(g.match_nodes(Some("C")).is_empty());
}

#[test]
fn values_are_compared_within_a_kind() {
    assert_eq!(
        compare_values(&CypherValue::Integer(1), &float(1.5)),
        Some(Ordering::Less)
    );
    assert_eq!(compare_values(&text("b"), &text("a")), Some(Ordering::Greater));
    assert_eq!(compare_values(&float(0.0), &float(-0.0)), Some(Ordering::Equal));
    assert_eq!(compare_values(&float(f64::NAN), &float(1.0)), None);
    assert_eq!(compare_values(&text("a"), &CypherValue::Integer(1)), None);
}

#[test]
fn constraints_come_back_from_their_keys() {
    let key = |b: Vec<u8>| String::from_utf8(b).unwrap();
    match read_constraint(&key(constraint_key("A", "x"))) {
        Some(StoredConstraint::Unique(l, p)) => assert_eq!((l.as_str(), p.as_str()), ("A", "x")),
        other => panic!("unexpected {:?}", other),
    }
    match read_constraint(&key(not_null_key("A", "x"))) {
        Some(StoredConstraint::NotNull(l, p)) => assert_eq!((l.as_str(), p.as_str()), ("A", "x")),
        other => panic!("unexpected {:?}", other),
    }
    match read_constraint(&key(node_key_key("A", "x,y"))) {
        Some(StoredConstraint::NodeKey(l, ps)) => {
            assert_eq!(l, "A");
            assert_eq!(ps, vec!["x".to_string(), "y".to_string()]);
        }
        other => panic!("unexpected {:?}", other),
    }
    match read_constraint(&key(property_type_key("A", "x", "STRING"))) {
        Some(StoredConstraint::PropertyType(l, p, k)) => {
            assert_eq!((l.as_str(), p.as_str(), k.as_str()), ("A", "x", "STRING"))
        }
        other => panic!("unexpected {:?}", other),
    }
    assert!(read_constraint("A").is_none());
}

#[test]
fn rows_as_json_objects() {
    let mut g = new_graph();
    let r = g.execute("RETURN 1 AS a, 'x' AS b").unwrap();
    assert_eq!(
        rows_to_json(&r),
        Json::List(vec![Json::Object(vec![
            ("a".to_string(), Json::Integer(1)),
            ("b".to_string(), Json::Text("x".to_string())),
        ])])
    );
    assert!(rows_to_strict_json(&r).is_ok());
    let bad = g.execute("RETURN 1.0e308 * 10.0 AS x").unwrap();
    assert_eq!(
        rows_to_strict_json(&bad),
        Err("Non-finite float value: inf".to_string())
    );
}

#[test]
fn constraint_messages_show_values() {
    let message = |e: CypherError| match e {
        CypherError::ConstraintError(m) => m,
        other => panic!("unexpected {:?}", other),
    };
    let mut g = new_graph();
    g.execute("CREATE CONSTRAINT FOR (n:A) REQUIRE n.x IS UNIQUE").unwrap();
    g.execute("CREATE (:A {x: 'a\\\\b'})").unwrap();
    assert_eq!(
        message(g.execute("CREATE (:A {x: 'a\\\\b'})").unwrap_err()),
        "Unique constraint violation on A:x: value String(\"a\\\\b\") already exists"
    );
    g.execute("CREATE CONSTRAINT FOR (n:B) REQUIRE (n.p, n.q) IS NODE KEY").unwrap();
    g.execute("CREATE (:B {p: 1, q: 'z'})").unwrap();
    assert_eq!(
        message(g.execute("CREATE (:B {p: 1, q: 'z'})").unwrap_err()),
        "NODE KEY constraint violation on B: duplicate key [\"Some(Int(1))\", \"Some(String(\\\"z\\\"))\"]"
    );
    g.execute("CREATE (:A {x: 1.5})").unwrap();
    assert_eq!(
        message(g.execute("CREATE (:A {x: 1.5})").unwrap_err()),
        "Unique constraint violation on A:x: value Float(1.5) already exists"
    );
    g.execute("CREATE (:B {p: 2.0, q: true})").unwrap();
    assert_eq!(
        message(g.execute("CREATE (:B {p: 2.0, q: true})").unwrap_err()),
        "NODE KEY constraint violation on B: duplicate key [\"Some(Float(2.0))\", \"Some(Bool(true))\"]"
    );
    g.execute("CREATE (:C {x: 1e20}), (:C {x: 1e20})").unwrap();
    let made = g.execute("CREATE CONSTRAINT FOR (n:C) REQUIRE n.x IS UNIQUE");
    assert!(message(made.unwrap_err()).ends_with(" both have C:x = Float(1e20)"));
}

#[test]
fn a_number_in_a_message_is_asked_for() {
    let mut m = MemoryStorage::new();
    let value = PropertyValue::Float(0.5f64.to_bits());
    let mut props = PropertyMap::new();
    props.insert("x".to_string(), value.clone());
    m.add_unique_constraint("A", "x").unwrap();
    m.create_node(vec!["A".to_string()], props);
    let refusal = m.check_unique_constraint("A", "x", &value).unwrap_err();
    assert_eq!(
        refusal.message(&Answers::new()).unwrap_err(),
        CypherError::Pending(Request::DebugFloat(0.5f64.to_bits()))
    );
    assert_eq!(
        refusal.message(&Floats).unwrap(),
        "Unique constraint violation on A:x: value Float(0.5) already exists"
    );
}

#[test]
fn queries_without_rand_do_not_depend_on_what_ran_before() {
    let mut g1 = new_graph();
    let mut g2 = new_graph();
    g1.reseed(7);
    g1.execute("RETURN rand()").unwrap();
    g1.execute_with_params("CREATE (n:A {x: $x}) RETURN n.x", &Parameters::new()).ok();
    g2.reseed(8);
    for g in [&mut g1, &mut g2] {
        g.execute("MATCH (n) DETACH DELETE n").unwrap();
    }
    let mut params = Parameters::new();
    params.insert("x".to_string(), CypherValue::Integer(3));
    let q = "CREATE (n:A {x: $x}) RETURN n.x, $missing";
    let r1 = g1.execute_with_params(q, &params).unwrap();
    let r2 = g2.execute_with_params(q, &params).unwrap();
    assert_eq!(r1.rows[0].values, r2.rows[0].values);
    assert_eq!(r1.rows[0].values[1], CypherValue::Null);
    assert_eq!(g1.node_count(), g2.node_count());
}

#[test]
fn json_texts_are_read() {
    assert_eq!(
        parse_json(r#"[null, true, -3, 18446744073709551615, 0.5, "a\nb", {"k": []}]"#),
        Ok(Json::List(vec![
            Json::Null,
            Json::Bool(true),
            Json::Integer(-3),
            Json::Unsigned(u64::MAX),
            Json::Float(0.5f64.to_bits()),
            Json::Text("a\nb".to_string()),
            Json::Object(vec![("k".to_string(), Json::List(vec![]))]),
        ]))
    );
    let p = parse_parameters(r#"{"x": 1, "y": {"z": [2]}}"#).unwrap();
    assert_eq!(p.get("x"), Some(&CypherValue::Integer(1)));
    assert!(matches!(p.get("y"), Some(CypherValue::MapValue(_))));
    assert_eq!(
        parse_parameters("[1,2,3]").unwrap_err(),
        "params_json must be a JSON object"
    );
    assert!(parse_parameters("{").unwrap_err().starts_with("invalid params_json: "));
    assert_eq!(
        take_parameters(Err("no good".to_string())).unwrap_err(),
        "invalid params_json: no good"
    );
    assert_eq!(
        take_parameters(Ok(Json::Null)).unwrap_err(),
        "params_json must be a JSON object"
    );
}

#[test]
fn aggregates_inside_other_expressions() {
    let mut g = new_graph();
    g.execute("CREATE (:P {c: 'x'}), (:P {c: 'x'}), (:P {c: 'y'})").unwrap();
    let r = g.execute("MATCH (n:P) RETURN toString(count(n)) AS s").unwrap();
    assert_eq!(r.rows.len(), 1);
    assert_eq!(first(&r), &CypherValue::String("3".to_string()));
    let r = g.execute("MATCH (n:P) RETURN [count(*), count(*) + 1] AS l").unwrap();
    assert_eq!(r.rows.len(), 1);
    assert_eq!(
        first(&r),
        &CypherValue::List(vec![CypherValue::Integer(3), CypherValue::Integer(4)])
    );
    let r = g
        .execute("MATCH (n:P) RETURN n.c AS c, size(collect(n.c)) AS k ORDER BY c")
        .unwrap();
    assert_eq!(r.rows.len(), 2);
    assert_eq!(r.rows[0].values[1], CypherValue::Integer(2));
    assert_eq!(r.rows[1].values[1], CypherValue::Integer(1));
    let r = g.execute("MATCH (n:P) RETURN {total: count(*)} AS m").unwrap();
    match first(&r) {
        CypherValue::MapValue(m) => assert_eq!(m.get("total"), Some(&CypherValue::Integer(3))),
        other => panic!("got {other:?}"),
    }
}

#[test]
fn distinct_tells_values_apart() {
    let mut g = new_graph();
    let r = g
        .execute("UNWIND [['a,S:b'], ['a', 'b'], ['a', 'b'], 'a', '[a]'] AS v RETURN DISTINCT v")
        .unwrap();
    assert_eq!(r.rows.len(), 4);
    let r = g
        .execute("UNWIND [{a: 1, b: 2}, {b: 2, a: 1}, {a: '1', b: 2}] AS v RETURN DISTINCT v")
        .unwrap();
    assert_eq!(r.rows.len(), 2);
    let r = g.execute("UNWIND [0.0, -0.0, 1.5] AS v RETURN DISTINCT v").unwrap();
    assert_eq!(r.rows.len(), 2);
    let r = g
        .execute("UNWIND [['a,S:b'], ['a', 'b']] AS v RETURN v, count(*) AS c")
        .unwrap();
    assert_eq!(r.rows.len(), 2);
}

#[test]
fn distinct_paths_over_parallel_relationships() {
    let mut g = new_graph();
    g.execute("CREATE (a:A)-[:R]->(b:B), (a)-[:R]->(b)").unwrap();
    let r = g
        .execute("MATCH (a:A), (b:B) MATCH p = allShortestPaths((a)-[*]->(b)) RETURN DISTINCT p")
        .unwrap();
    assert_eq!(r.rows.len(), 2);
}

#[test]
fn properties_are_found_by_equal_values() {
    let mut g = new_graph();
    g.execute("CREATE (:Z {x: 0.0})").unwrap();
    let r = g.execute("MATCH (n:Z {x: -0.0}) RETURN count(n) AS c").unwrap();
    assert_eq!(first(&r), &CypherValue::Integer(1));
    let zero = PropertyValue::Float(0.0f64.to_bits());
    let minus = PropertyValue::Float((-0.0f64).to_bits());
    let nan = PropertyValue::Float(f64::NAN.to_bits());
    assert_eq!(zero, minus);
    assert_ne!(nan, nan.clone());
    let labels = vec!["Z".to_string()];
    let mut held = PropertyMap::new();
    held.insert("x".to_string(), zero);
    let mut wanted = PropertyMap::new();
    wanted.insert("x".to_string(), minus);
    let mut m = MemoryStorage::new();
    let id = m.create_node(labels.clone(), held);
    assert_eq!(m.find_nodes(&labels, &wanted), vec![id]);
}

#[test]
fn equality_of_maps_has_no_order() {
    let mut a = Parameters::new();
    a.insert("x".to_string(), CypherValue::Integer(1));
    a.insert("y".to_string(), float(0.0));
    let mut b = Parameters::with_capacity(2);
    b.insert("y".to_string(), float(-0.0));
    assert_ne!(a, b);
    assert_eq!(b.insert("x".to_string(), CypherValue::Null), None);
    assert_eq!(
        b.insert("x".to_string(), CypherValue::Integer(1)),
        Some(CypherValue::Null)
    );
    assert_eq!(a, b);
    assert_eq!(CypherValue::MapValue(a.clone()), CypherValue::MapValue(b.clone()));
    b.insert("y".to_string(), float(f64::NAN));
    assert_ne!(b, b.clone());
    assert_eq!(
        CypherValue::List(vec![CypherValue::Integer(1)]),
        CypherValue::List(vec![CypherValue::Integer(1)])
    );
    assert_ne!(CypherValue::Integer(1), float(1.0));
    let mut p = PropertyMap::new();
    p.insert("k".to_string(), PropertyValue::Int(1));
    p.insert("l".to_string(), PropertyValue::Bool(true));
    let mut q = PropertyMap::new();
    q.insert("l".to_string(), PropertyValue::Bool(true));
    q.insert("k".to_string(), PropertyValue::Int(1));
    assert_eq!(p, q);
}

#[test]
fn entries_of_a_row_are_kept_or_taken_away() {
    let mut r = Parameters::new();
    r.reserve(3);
    r.insert("a".to_string(), CypherValue::Integer(1));
    r.insert("b".to_string(), CypherValue::Integer(2));
    r.insert("c".to_string(), CypherValue::Integer(3));
    r.retain(|k, v| k != "a" && *v != CypherValue::Integer(3));
    assert_eq!(r.entries.len(), 1);
    assert_eq!(r.get("b"), Some(&CypherValue::Integer(2)));
    assert_eq!(r.remove("z"), None);
    assert_eq!(r.remove("b"), Some(CypherValue::Integer(2)));
    assert_eq!(r.entries.len(), 0);
}

#[test]
fn merge_takes_a_bound_relationship() {
    let mut g = new_graph();
    g.execute("CREATE (:A)-[:R {k: 1}]->(:B)").unwrap();
    g.execute("MATCH (a:A)-[r:R]->(b:B) MERGE (a)-[r:R]->(b)-[:S]->(:C)").unwrap();
    assert_eq!(g.edge_count(), 2);
    assert_eq!(g.node_count(), 3);
    let r = g
        .execute("MATCH (:A)-[r:R {k: 1}]->(:B)-[s:S]->(:C) RETURN count(*)")
        .unwrap();
    assert_eq!(first(&r), &CypherValue::Integer(1));
}

#[test]
fn merge_twice_changes_nothing() {
    let mut g = new_graph();
    g.execute("MERGE (n:City {name: 'Bern', size: 3})").unwrap();
    let before = g.export_cypher().unwrap();
    let r = g.execute("MERGE (n:City {name: 'Bern', size: 3}) RETURN n.name").unwrap();
    assert_eq!(r.rows.len(), 1);
    assert_eq!(g.export_cypher().unwrap(), before);
    assert_eq!(g.node_count(), 1);
}

fn chain(n: u64) -> InMemoryGraph {
    let mut g = InMemoryGraph::new();
    for i in 0..=n {
        let mut p = PropertyMap::new();
        p.insert("i".to_string(), PropertyValue::Int(i as i64));
        g.create_node(vec!["N".to_string()], p);
    }
    for i in 0..n {
        g.create_edge("R".to_string(), i, i + 1, PropertyMap::new()).unwrap();
    }
    g
}

#[test]
fn unbounded_shortest_paths_end_within_the_limit() {
    let far = "MATCH (a:N {i: 0}), (b:N {i: 101}) MATCH p = shortestPath((a)-[*]->(b)) RETURN length(p)";
    let mut g = chain(102);
    let r = g.execute(far).unwrap();
    assert_eq!(r.rows.len(), 0);
    let r = g.execute(&far.replace("[*]", "[*..200]")).unwrap();
    assert_eq!(first(&r), &CypherValue::Integer(101));
    let r = g.execute(&far.replace("[*]", "[*..50]")).unwrap();
    assert_eq!(r.rows.len(), 0);
    let r = g.execute(&far.replace("101", "100")).unwrap();
    assert_eq!(first(&r), &CypherValue::Integer(100));
}

#[test]
fn all_shortest_paths_are_found_once() {
    let mut g = new_graph();
    g.execute(
        "CREATE (s:S), (t:T), (m:M), (n:M), (s)-[:R]->(m), (s)-[:R]->(m), (m)-[:R]->(t), \
         (s)-[:R]->(n), (n)-[:R]->(t), (s)-[:R]->(s), (n)-[:R]->(m)",
    )
    .unwrap();
    let r = g
        .execute("MATCH (s:S), (t:T) MATCH p = allShortestPaths((s)-[*]-(t)) RETURN DISTINCT p")
        .unwrap();
    assert_eq!(r.rows.len(), 3);
    let r = g
        .execute("MATCH (s:S), (t:T) MATCH p = allShortestPaths((s)-[*]-(t)) RETURN length(p) AS l")
        .unwrap();
    assert_eq!(r.rows.len(), 3);
    for row in &r.rows {
        assert_eq!(row.values[0], CypherValue::Integer(2));
    }
}

#[test]
fn reasons_why_a_text_is_no_integer() {
    let reason = |s: &str| match parse_integer_value(s) {
        Err(CypherError::ParseError(m)) => m,
        other => panic!("got {other:?}"),
    };
    assert_eq!(reason(""), "Invalid integer: cannot parse integer from empty string");
    assert_eq!(reason("+"), "Invalid integer: invalid digit found in string");
    assert_eq!(reason("12x"), "Invalid integer: invalid digit found in string");
    assert_eq!(
        reason("9223372036854775808"),
        "Invalid integer: number too large to fit in target type"
    );
    assert_eq!(
        reason("99999999999999999999x"),
        "Invalid integer: number too large to fit in target type"
    );
    assert_eq!(
        reason("--9223372036854775809"),
        "Invalid integer: number too small to fit in target type"
    );
    assert_eq!(reason("0x"), "Invalid hex integer: cannot parse integer from empty string");
    assert_eq!(
        reason("0x8000000000000000"),
        "Invalid hex integer: number too large to fit in target type"
    );
    assert_eq!(reason("0o8"), "Invalid octal integer: invalid digit found in string");
    assert_eq!(parse_integer_value("-0x7f").unwrap(), -127);
    for text in ["", "+", "-", "x", "1x", "99999999999999999999", "-99999999999999999999"] {
        let said = text.parse::<i64>().unwrap_err().to_string();
        if !text.starts_with('-') {
            assert_eq!(reason(text), format!("Invalid integer: {said}"));
        }
    }
}
