# polonius

The core of a borrow checker for Rust in the style of Polonius, written in Verus: the
analyses are executable Rust whose results are proved to be what their rules define.

The facts of a function (loans issued and invalidated, subset relations between origins, the
control-flow graph, variable uses and definitions, move paths) go through a pipeline of units
of computation. Each unit derives relations from relations, and its contract states its output
exactly: most are the least relation closed under a few datalog rules. The borrow check
reports the loans that are live where they are invalidated, the placeholder origins that flow
into one another without a known subset relation, and the paths accessed where they may be
uninitialized.

## Layout

- `src/`: the verified library.
  - `lexer.rs`, `token.rs`, `parser.rs`, `ir.rs`, `error.rs`: the syntax of fact programs.
  - `program.rs`, `intern.rs`, `facts.rs`: the facts of a fact program over interned names.
  - `tab_delim.rs`: facts read from tab-delimited files.
  - `relation.rs`: sorted relations, the operations of `datafrog` on them, and propagation
    along the edges of a graph as a least fixpoint.
  - `compute.rs`: the control-flow nodes, move paths and initialization, liveness, known
    placeholder subsets, and the location-insensitive analysis.
  - `naive.rs`: the naive location-sensitive analysis, with the proof that the
    location-insensitive analysis finds each of its errors.
  - `pipeline.rs`: the units, the database of relations, pipeline validation and execution,
    and the errors of each algorithm, with its intermediate relations on request.
  - `algorithm.rs`, `datalog.rs`, `docgen.rs`, `text.rs`, `timely_util.rs`: algorithm names,
    datalog rules as text, markdown from datalog files, text helpers, and dataflow arguments.
  - `skeleton.rs`: skeleton datafrog computations generated from datalog rules and relation
    declarations.
  - `dump.rs`: the rows of the output relations and the padded text in which they are dumped.
  - `graphviz.rs`: the graphviz text of a computation: the control-flow graph with the input
    facts and the output tuples at each point.
  - `rules_text.rs`: the proof that datalog rules in their text form, one per line, read back
    as the same rules.
- `tests/`: tests of the library.
- `app/`: the `polonius` command, which reads fact directories and prints the results.
