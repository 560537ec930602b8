# wavelet_tree

Wavelet trees over unsigned integer symbols (`u8`, `u16`, `u32`, `u64`),
answering `access` (the symbol at a position), `rank` (how often a symbol
occurs up to a position) and `select` (where the k-th occurrence of a symbol
is), and a compact directed graph stored in such a tree. Every function of
the library is verified with Verus against a contract stated over the
sequence that a tree stores.

Layout of `src/`:

- `bits.rs`: the bit vector (backed by `bv::BitVec<u8>`) and the rank/select
  index (`bio`'s `RankSelect`), with their contracts; counting over sequences.
- `symbol.rs`: the `Symbol` trait (symbols compared by numeric value).
- `alphabet.rs`: the sorted list of distinct symbols of a sequence.
- `partition.rs`: keeping the elements that satisfy a predicate, and how a
  sequence splits along a bit sequence and is interleaved back.
- `traits.rs`: the `WaveletTree` and `Node` query traits.
- `pointer.rs`: the pointer-based tree; a node splits its symbol range at the
  midpoint of its smallest and largest symbol.
- `pointer_less.rs`: the level-packed tree; a node over `n` symbols sends the
  largest power of two below `n` of them to the left, and the bits of all
  inner nodes are stored level after level in one bit vector.
- `graph.rs`: a graph whose adjacency lists, each opened by a `0`, are stored
  in a pointer-based tree, with a bit vector marking where each list starts.

Each module states its laws as public proof functions whose names begin with
`law_`.
