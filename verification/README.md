# rinha

Fraud scoring of card transactions by nearest-neighbour search, written in Verus.

A transaction becomes a vector of fourteen features. The five reference vectors
nearest to it vote on whether it is approved: it is turned down where three or more
of them are frauds. What the library computes is stated in contracts and proved.

## Layout

- `src/http.rs`, `src/json.rs`: requests and transactions, read from bytes.
- `src/vectorizer.rs`: from a transaction to its features.
- `src/knn.rs`, `src/ivf.rs`, `src/exact.rs`: the search, and why it finds the five
  nearest.
- `src/write.rs`, `src/tree.rs`, `src/partitions.rs`, `src/encode.rs`: building the
  index and its file.
- `src/dataset.rs`, `src/clusters.rs`, `src/complete.rs`: reading the file back, the
  clusters that a search goes through, and why no reference vector is left out.
- `src/server.rs`, `src/responses.rs`, `src/lb.rs`: the decisions of the service and of
  the dispatcher in front of it.
- `src/kmeans.rs`, `src/eval.rs`: grouping vectors, and the yardstick for the search.
- `src/agree.rs`: why the built index answers what the yardstick answers.
- `src/bytes.rs`: searching in bytes.
- `app/`: the programs round the library: sockets, files, and all that is floating
  point.

## What is trusted

`memchr::memmem::find`, `memchr::memchr`, `char::is_whitespace` and
`slice::sort_unstable_by_key` are called under contracts that are taken from their
documentation.
