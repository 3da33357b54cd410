# egrph

An embeddable property graph with a Cypher query engine, verified with Verus.

- `src/` is the library. Verus proves the contract of every function in it but
  the wrappers around calls into other crates and std (`regex`, `csv`, `chrono`,
  `serde_json`), whose contracts it believes: each is marked
  `#[verifier::external_body]`, and its doc comment says what is believed.
- `tests/` runs the library from outside.
- `app/` is ordinary Rust around it: the command line, storage on disk, and
  bindings for C, Python and the browser.

## How a query is run

| Step | Modules | What the contract of the step speaks of |
|---|---|---|
| Tokens | `lexer`, `literals` | `lexer::tokens_of` |
| Statement | `grammar`, `parsing`, `parser`, `ast` | `parser::statement_of` |
| Plan | `plan`, `planner` | `planner::plan_of` |
| Rows | `executor`, `rows`, `joins`, `paths`, `shortest`, `load`, `aggregate` | `executor::run` |
| Values | `eval`, `ops`, `functions`, `number`, `text`, `equality`, `keying` | `semantics::eval` |
| Changes | `writes`, `deletes`, `merges` | `store` |
| Storage | `backend`, `memory`, `index`, `constraints`, `refusal` | `store::StoreV` |

`graph::Graph` joins the steps: what `execute` returns, and the graph after it,
is `graph::queried`.

Floating-point arithmetic and the contents of files come from outside. The
library asks for them through the trait `outside::Outside`, and a query that
needs an answer which is not there ends with an error that holds the request.

## What is proved beyond the contracts

- `recreate`: the query that a graph is exported as creates a copy of it.
- `repeatable`, `steady`: a query without `rand()` does not depend on the state
  from which random numbers are drawn, nor on the plans that a graph keeps.
- `laws`: what every query keeps, queries that only read, LIMIT, SKIP, DISTINCT,
  MERGE and constraints.
- `sorting`, `grouping`, `joins`: what ORDER BY, groups and joins give.
- `paths`, `shortest`: trails are sound and complete, shortest paths are minimal,
  and all of them are found, each once.
- `identity`, `equality`: the keys of DISTINCT and grouping tell values apart, and
  equal values have one key.
- `store`: what is written is read back, identifiers are fresh, refusals leave
  the graph as it is.
- `keys`, `stored`, `json`, `snapshot`, `literals`: written forms are read back.
