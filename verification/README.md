# reasonable

An OWL 2 RL reasoner over RDF triples, written in Verus. The library interns
RDF terms into integer identifiers, materializes the closure of a set of
triples under the OWL 2 RL rules (and the `owl:complementOf` rule), reports
the rule violations found in the closure, and renders the result as triples
of terms again.

Layout:

- `src/relation.rs`: sorted triple relations and the datafrog operations.
- `src/common.rs`, `src/index.rs`: RDF terms and their interning.
- `src/rules.rs`, `src/engine.rs`, `src/closure.rs`: the rules, one step of
  each rule group, and the least fixed point of all of them.
- `src/rdf_lists.rs`: membership of RDF lists, by union-find.
- `src/complement.rs`: the closure together with the complement rule.
- `src/violations.rs`, `src/diagnostics.rs`: the rule violations and how
  they are recorded.
- `src/reasoner.rs`: the `Reasoner` and its builder.
- `src/document.rs`: reading Turtle and N-Triples documents (through
  rio_turtle) into triples of terms, and `Reasoner::load_document`.
- `src/cli.rs`: the formatting and filtering of diagnostics for the command.
- `src/laws.rs`: properties that relate several operations.
- `app/`: the command-line program (reading and writing files, Turtle
  output, argument handling).
