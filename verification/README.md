# action_orc

Hierarchical task graphs: declared with a small language, composed by
embedding one graph into another, ordered, and driven at run time by resolving
tasks. The library under `src/` is verified with Verus.

- `graph`, `adjacency`: task graphs with in-degrees kept in step with their
  edges; merging a graph into another at given nodes; Kahn ordering, which
  fails exactly on graphs with a cycle.
- `builder`, `dag`, `meta`, `tasks`: incremental construction, a plain
  directed graph with external identifiers, node metadata, and the vocabulary
  of task schedules.
- `engine`: the pending counters of a running graph, what resolving a node
  releases, and a reactor that decides which notifications are delivered.
- `dsl`: the orchestration language (`A -> (B | c: C) -> #[sub] -> [c]`) read
  from tokens into a syntax tree, and the plan of statements that builds the
  graph, with its errors: repeated anonymous types, repeated variables and
  circular dependencies. A circular dependency is reported exactly when the
  link graph has a cycle: one node per variable, per embedded graph and per
  source or sink list of a parallel group, the lists joined to the ends of the
  group's branches. Reading stops with an error at the first token that cannot
  be read.

`app/` holds what stays outside the verified library: the `orc!` front end,
which turns token trees into the library's tokens and the plan into Rust code,
and the runtimes that keep listeners and call them.
