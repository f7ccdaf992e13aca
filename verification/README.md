# Hybrid Inlining

A compositional, context-sensitive pointer analysis, verified with Verus. The analysis
summarizes each procedure once; a statement whose effect depends on the caller (a
virtual call with several targets, an access through a variable index) stays in the
summary as a placeholder and moves into the callers until something pins it. A limit
`k` bounds how far.

The result is defined as the least model of a set of rules over a program's facts, and
the library proves that what it computes is exactly that model.

## Layout

- `src/ir.rs`, `src/access_path.rs`: the facts of a program; paths, values and summaries.
- `src/rules.rs`: the rules, and what their least model is.
- `src/analysis.rs`, `src/query.rs`: running the analysis and asking what it found.
- `src/laws.rs`: what holds of every finished analysis.
- `src/path_bound.rs`: the vocabulary of access paths that keeps the model finite.
- `src/ctadl.rs` with `cir`, `lower`, `hierarchy`, `dispatch`: the front end, from an
  intermediate representation to facts. `src/wellformed.rs`: what holds of its output.
- `src/resume.rs`: running an analysis whose relations hold tuples already, by the table
  of rules in `src/clauses.rs` and the evaluator in `src/datalog.rs` (with `cells`, `ops`).
- `src/mapping.rs`: which facts a statement of the front end adds.
- `src/example.rs`, `src/figure5.rs`, `src/families.rs`: programs to run it on.
  `src/levels.rs`, `src/climbing.rs`, `src/merging.rs`, `src/reading.rs`: what holds of
  some of the families, and what the analysis finds on them.
- `src/mem.rs`: heap accounting.
- The other modules are the machinery: numbered names and tables (`codes`, `table`),
  the rounds of the fixpoint (`engine`, `state`, `solve` and what they use), and turning
  tables back into lists (`convert`, `tuples`, `order`).

`app/` is ordinary Rust around the library: it reads imports from CTADL's store, which
takes the crate `ctadl-ir`, and measures memory with a counting allocator.

## The access-path bound

Access paths of unbounded length have no fixpoint on real code: suffix congruence feeds
its own premise. So the vocabulary of suffixes is an input, fixed before the fixpoint
starts, and every path that a rule builds is tested against it. A program may bring its
own; otherwise the suffixes that its statements spell are used, concatenated along local
data flow.
