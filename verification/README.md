# netmap

Captures the active TCP connections of a host into timestamped JSON files,
and builds a network graph (`graph.json`) from a folder of such files.

The library under `src/` holds the logic, verified with Verus:

- `text`, `order`, `seqs`: character sequences, whitespace trimming, decimal
  numbers, lexicographic order, sorted sets and sequence facts.
- `address`: loopback and unspecified addresses by range.
- `model`: capture files and the graph, with their mathematical views.
- `merge`: merging the files of each hostname (addresses united, endpoints
  counted, `snapshot_count` = files merged).
- `ipmap`, `edges`, `graph`, `trim`: the address table, classification of
  each connection (self loop, captured host or external address), edge
  aggregation, the graph, and the optional removal of external nodes that
  only one edge reaches.
- `unmerged`: the graph with one node per file, nothing merged; there an
  address that no file lists is always an external node.
- `capture`: local addresses, which sockets count, accumulation over scans,
  the capture file and its name.
- `cli`: subcommand, options and which files of a folder are read.
- `report`: figures printed by the tool.
- `laws`: properties of every graph built (node names, unique node ids, one
  node per host, edges joining nodes, self loops, ports within counts, count
  totals, trimming exactly the external nodes fewer than two external edges
  reach, trimming keeps the graph closed and its edges sorted, determinism, files that are not
  read change nothing, whitespace-insensitive loopback detection).

`app/` is the command-line program: argument handling, reading the socket
tables and interfaces, JSON (de)serialisation and file I/O. Invoked under the
name `net-graph-builder`, `net-graph-viz`, `net-info` or `net-graph`, the same
binary behaves as that program of the suite.
