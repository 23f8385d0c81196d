# oc-earley

Exact recognition of the canonical JSON texts of a JSON Schema, and masks of the tokens that may come
next: where no limit is passed, a mask holds exactly the tokens behind which some text of the schema
can still be ended.

A schema is normalized into a graph of nodes, the graph is lowered to a grammar, and the grammar is
served by the least powerful recognizer that keeps its language: a byte automaton where the whole
language has a regular certificate, LALR(1) tables where neither parser nor lexical conflicts occur,
and Earley charts otherwise.

* `src/` is the library. Every function is verified by Verus against its contract. What is claimed of
  outside code stands in the doc comments of the functions that call it.
* `tests/` runs the library on concrete schemas, grammars and vocabularies.
* `app/` is the command line and the Python module: files, clocks, and the formats of other crates.

The path of a schema through the library:

| Module | What it does |
| --- | --- |
| `json`, `pointer`, `places` | JSON values, pointers, and where schemas stand in a document |
| `normalize`, `schema`, `order` | the normal form of a schema, its limits, and the order in it |
| `language`, `meaning` | which texts conform to a normalized schema |
| `lowering`, `builder` | the grammar of a schema |
| `reduction`, `scc`, `certificate` | useless symbols, components, and regular certificates |
| `regular`, `kleene`, `dense`, `automaton`, `tabulate` | regular expressions and byte automata |
| `collapse`, `residual_build`, `residual` | grammars whose regular parts became terminals |
| `lr`, `items`, `item_sets`, `canonical`, `merge`, `table`, `lalr`, `lalr_recognizer` | LALR(1) tables |
| `chart`, `earley` | Earley charts with Leo's shortcuts |
| `viability` | that what a parser has begun can be ended |
| `vocabulary`, `trie`, `uniqueness`, `index`, `tokens`, `mask` | tokens and masks |
| `recognizer`, `guide`, `index_guide`, `engine` | what callers hold |
| `agreement`, `congruence` | what holds of masks, guides and backends together, whatever the policy |
| `report`, `message`, `command`, `frame` | reports, texts of errors, arguments, stored objects |
