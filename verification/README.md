# cmpe524_network_designer

Verified building blocks of a UAV network designer.

`src/` is the library, checked with Verus:

- `models::network` — the topology: an undirected `petgraph` graph of nodes and
  links, whether it is fully connected, and the laws of reachability (adding a
  link never disconnects, an unlinked new node disconnects, small networks are
  connected).
- `models::node`, `models::link` — what the topology keeps of nodes and links.
- `models::metrics` — counts of generated, successful and dropped tasks.
- `models::mobility` — the kinds of position update of a moving user.
- `algorithms::association` — the capacity check before the association is
  optimised: a request with no users needs no work, and any other fails exactly
  when no valid association exists (an association exists iff the users fit in
  the total capacity, zero when there are no UAVs); and the reading of an
  association matrix into per-user and per-UAV connections.
- `algorithms::offloading` — where a task goes once a candidate UAV is chosen.
- `algorithms::placement` — the cluster bookkeeping of K-means placement.
- `simulation` — which UAVs run and transmit an offloaded task.

`app/` is the program around it: configuration files, the ILP solver, and
everything computed in floating point (distances, delays, energies, centroids,
mobility).

`tests/` holds the tests of the library.
