# graph_traffic

A simulator of message traffic on connected undirected graphs. Every vertex
may create a message at each time step, bound for another vertex drawn
uniformly; messages travel along edges, which deliver at most their capacity
of messages per step in the order they arrived, and are routed along shortest
paths, by random walk, or by a mix of the two. Counters on vertices and edges,
and optional observers, record what happens.

The library in `src/` is verified with Verus:

- `edge_list` reads the edge-list format (two header lines, then one edge per
  line, fields separated by any Unicode white space) and returns every edge in
  both directions, sorted, once.
- `graph_structure` prepares a connected graph: edge identifiers,
  breadth-first distances, path counts and shortest-path graphs, with the laws
  of graph distances and a connectivity check.
- `graph_dynamics` holds vertices, edges and messages, and the routing step.
- `simulation` holds the state of a simulation and its rounds.
- `observers`, `random_engine`, `schema` and `tracker` hold what is measured,
  the random draws, the settings with the JSON schema that a configuration
  file must satisfy, and the progress of a batch.

`app/` is the program around it: the command line, reading the configuration
file and printing why it breaks the schema, the weighted choice of next hops,
the modifiers, and the HDF5 result file.

The graph file format:

```
<number_of_vertices>
<number_of_edges>
<source_0> <target_0>
<source_1> <target_1>
...
```
