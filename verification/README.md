# multihop_filter

Label-filtered nearest-neighbor search on a graph, by multi-hop expansion: where
too few neighbors of a node match the label filter of a query, the search walks
through those that do not match to the matching nodes behind them.

The library in `src/` is verified with Verus. A search is a state machine that
says what it needs from the graph and takes the answer; `app/` holds the
asynchronous loop that answers, the file access and the printing.

- `neighbor`, `queue`, `visited`, `scratch`: the state of a search.
- `label`, `filters`: label filters over bitmaps.
- `bitmap`, `bitmap_cache`: bitmaps as bytes, and the cache file.
- `multihop_search_dev`, `multihop_search_dev_earlystop`: the two searches. The
  second stops once hops find no more matches, and records what each hop found.
- `multihop_dev`: one search for each query of a benchmark.
- `result`, `result_table`, `trace_file`, `text`: benchmark results, their tables
  and the file with their traces.
- The modules whose names end in `_laws` state what holds of every queue and of
  every run of a search.
