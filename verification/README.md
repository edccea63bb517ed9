# resin

Resin is a probabilistic first-order logic language for reactive inference
over data streams. A Resin program declares sources, rules and targets; it is
rendered as an Answer Set Program whose models, read as a sum of products of
leaf variables, become a reactive circuit: a graph of algebraic circuits
whose nodes cache their values on the edges into them, so that a change of
one input recomputes only the nodes that depend on it, and whose shape adapts
by lifting leaves up and dropping them down the graph.

This crate is written in Verus: the library under `src/` states what each
function does in `requires` / `ensures` contracts over mathematical models,
and Verus proves the code against them.

## Layout

- `src/text.rs`, `src/utility.rs`, `src/lemmas.rs`: character and string
  helpers, small utilities, and general facts about sequences and sets.
- `src/language/`: the Resin language.
  - `pattern.rs`: the regular expressions the grammar is matched with (calls
    into the `regex` crate behind trusted wrappers).
  - `matching.rs`: literals, atoms, statements and comparison names.
  - `concepts.rs`: sources, targets, clauses and comparison literals.
  - `resin.rs`: whole programs: comment stripping, parsing into
    declarations, rendering the ASP program of a target, and planning the
    signals (leaves) that a compiled program reads.
  - `asp.rs`, `dnf.rs`: the ASP models and their disjunctive normal form.
- `src/circuit/`: the circuits.
  - `algebraic.rs`: sum-of-products circuits over leaf and memory columns:
    building, splitting, multiplying, removing columns, canonical form.
  - `reactive.rs`: the reactive circuit over a `petgraph` graph, its
    well-formedness, targets, dependencies, connecting and disconnecting
    nodes.
  - `adaptation.rs`, `lifting.rs`: dropping a leaf down into children and
    lifting it up into parents, and adapting to a new partitioning.
  - `semantics.rs`: the value of a node (sum over its minterms of the
    product of leaf values and child values) and the proof that dropping a
    leaf keeps the values of the nodes it does not push the leaf into.
  - `lift_values.rs`: the proof that a lift out of a circuit that is ready
    for it keeps the value of every node that remains and of every target,
    which follows the lifted circuit to its new parent; `lifting.rs` and
    `adaptation.rs` chain these steps (`law_ready_lifts_keep_target`,
    `law_ready_drops_keep_target`).
  - `pruning.rs`: removing circuits without variables.
  - `scheduling.rs`: what an update recomputes, grouped by height, and the
    descendants of a node by depth.
- `src/channels/clustering.rs`: packing and flipping partitions of leaves.
- `app/`: the command-line program: argument parsing, file input, the ASP
  solver, and the floating-point evaluation of circuits, in plain sums of
  products and in the LogProb, MaxProduct, Fuzzy, Boolean and ProbGradient
  semirings.
- `tests/`: tests run against the compiled library.
