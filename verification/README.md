# dl85

DL8.5: a search for decision trees of bounded depth with the fewest
misclassified transactions, over binary attributes, with a cache of the
itemsets met, upper bounds, and optionally a limited discrepancy search, a
time limit and a limit on the number of recursive calls. The library is
written in Verus and its contracts are proved.

Layout:

- `src/data.rs`, `src/data/`: reading a dataset (one transaction per line,
  the class first, then 0/1 attribute values) into four layouts: row-major
  and column-major bit vectors, 64-bit chunked bit vectors, and 64-bit words
  holding the lines last-first. `readers_agree` states that they hold the
  same values.
- `src/mining/`: the operators that hold a current itemset and count its
  cover (support, support per class, leaf error) over a layout, behind the
  `ItemsetBitvector` trait.
- `src/cache/trie.rs`: the cache, a trie keyed by itemsets.
- `src/dl85/basic_dl85.rs`: the search. `src/dl85/optimum.rs` defines the
  smallest error of a tree in the space searched; `DL85::run` states that
  the plain search finds it and records it at the cache's root with a
  test whose split gives it, and that in every mode (discrepancy, time
  limit, limit on recursive calls, reloading) the error it reports is no
  smaller than it. `support_counts_lines` ties the column operator's
  counts to the lines read.
- `src/solution/`: reading the best tree out of the cache.
- `app/`: the command-line program (settings, files, floating-point
  information gain, logging of the error over time, JSON output).
