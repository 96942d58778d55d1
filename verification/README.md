# trove

Repository memory for language models: a repository is indexed once into layers of memory
(symbols, modules, subsystems, architecture, history) and a query retrieves only what it
needs, top-down and within a context budget.

The library in `src/` is written in Verus: its functions are proved against their contracts,
apart from a few small trusted wrappers around outside calls.

- `text`, `compression`: text primitives; summaries, tiers and keyword fingerprints.
- `symbol`, `parser`, `graph`: symbols found with tree-sitter grammars, the dependency graph
  and its bounded expansion.
- `module`, `subsystem`, `architecture`, `indexer`, `walk`: the memory layers built from an
  index run, the decisions of the run itself (which files are reused, what each file adds),
  and a whole walk's files run through it.
- `budget`, `pipeline`, `semantic`: context budgets and progressive retrieval.
- `object`, `memory`, `hierarchy`, `freshness`, `execution`, `patch`, `reflection`, `reflect`,
  `historical`: memory objects and the records kept beside them.
- `store`: what the durable store answers each request, given what the database held.

Calls into outside crates (SHA-256, regular expressions, tree-sitter, paths, the clock) go
through those wrappers. Where the result depends on the arguments alone, a wrapper's contract
states it or gives it a name; the clock and the grammar wrappers promise nothing of what they
return.

`app/` is the `trove` command line: walking the repository, reading files, the SQLite store
and JSON encoding, around the library. `tests/` exercises the library on concrete values.
