# fleet_challenge

A layout validation and route planning service for vehicles driving on a directed graph of
driveways, with its logic verified by Verus.

- `src/` is the verified library:
  - `models` — the layout: nodes with fixed-point positions, directed edges naming nodes by id.
  - `validation` — every rule checked, every violation reported in rule order
    (`validate_rules`, `validate_layout`), with the exact list of violations as the contract.
  - `connectivity` — breadth-first reachability over adjacency lists.
  - `graph` — the routing graph: node indices, edges with Euclidean weights, outgoing lists.
  - `lookup` — node ids to node indices in a table sorted by id, searched by bisection.
  - `routing` — Dijkstra's algorithm; the contract says the route is a directed path from
    start to goal that no other path undercuts and that repeats no node, which of several
    equally short routes comes back (each node entered from the predecessor that the search
    finished first, then by the smaller edge index; the search finishes the nearest node
    next, the larger index first among equally near ones), and when each error is returned.
  - `service` — which graph is kept as the last valid one, and how route requests are answered.
  - `text` — whitespace, decimal numerals, the byte-wise order of strings, joining.
  - `laws` — how violations count per rule, what an accepted layout guarantees (every rule
    holds, every node reaches every node, route planning on its graph always succeeds), and
    that adding a driveway never lengthens the shortest route.
- `app/` is the axum HTTP server around the library (JSON, locking, floating point).
- `tests/` exercises the library.

Positions are held as integers: one layout length unit is `COORDINATE_SCALE` (10^6)
coordinate units, and coordinates are limited to `MAX_COORDINATE` (10^12) in magnitude. Edge
weights and route distances are integers in units of 10^-12 layout length: the weight of an
edge is the floor of the exact Euclidean distance between its endpoints. The server converts
JSON numbers to and from these units.
