# mnemonist

A library of collections written in Verus: every structure in `src/` carries
a contract over a mathematical model (sequences, multisets, maps), and Verus
proves the code against it.

- `src/` holds the verified library, one module per structure (stacks,
  queues, heaps, a Fibonacci heap, disjoint sets, sparse sets, bit sets and
  vectors, Bloom filters, tries, BK- and VP-trees, suffix arrays, a
  SymSpell index, and more). Calls into `indexmap` stand behind small
  trusted wrappers whose contracts state what that crate documents.
- `tests/` runs the library on concrete values.
- `app/` is a command-line runner that reads JSON requests, builds the
  collections, calls the library and prints JSON results.
