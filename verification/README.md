# neo4j-graph-viz

A force-directed viewer for a Neo4j graph: an axum backend reads every node and relationship
over Bolt, lays the graph out server-side, and serves it as JSON to a browser front end, with
per-node detail and a search that removes unrelated nodes rather than dimming them.

The project is split in two:

- `src/` is a library verified with Verus. It holds the logic: shaping database rows into
  display values (`graph::shape`, `graph::options`), assembling the graph and its id index and
  undirected adjacency (`graph::assemble`, `graph::model`, `graph::csr`), the deterministic
  synthetic benchmark graph (`graph::fixture`), the fuzzy-match evidence search ranks by
  (`search`), which nodes get embedded and how (`embed`), the cache policy and the
  one-rebuild-per-dimensionality claim (`state`), and the parsing of every setting
  (`number`, `config`, `api`, `util`, `text`). `sorted_map` is the ordered map the property
  bags live in. Public proof functions state the properties that span calls.
- `app/` is the server around it: environment, Bolt queries, HTTP handlers, the JSON payload
  types, the background rebuild and embedding tasks, and the floating-point work (layout with
  Barnes–Hut trees, and the weighting and propagation of search scores).

`tests/` exercises the library on concrete values.
