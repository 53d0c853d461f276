# redgex

A small regular-expression engine written in Verus. A pattern is compiled
into a graph of checks; matching walks that graph breadth first from every
start position of the text and reports, for each match, the text of every
capture group (group 0 is the whole match).

Layout of `src/`:

- `chars.rs`: character helpers (case folding, the shorthand classes
  `\w`, `\d`, `\s`, numerals).
- `parse.rs`: scanners over a pattern (outermost alternatives, group and
  bracket-class ends, literal runs) and bracket-class expansion.
- `graph.rs`: the matching graph and its well-formedness.
- `compile.rs`: the compiler from a pattern to a graph, with its
  specification, the proof that every graph it builds is well formed, and
  the proof that each construction step keeps what was built before it,
  adds one group per group-start node, and adds no match-completing node
  unless asked to.
- `world.rs`: the breadth-first search, its specification, and the laws
  proved of it (the first match is the first of all matches, no match is
  reported twice, every match lists one capture per group, every match is
  what some walk of the graph over the text captured, and, where the search
  runs out of work within its budget, every such walk is reported).
- `lib.rs`: `RedGex`, a compiled pattern.
