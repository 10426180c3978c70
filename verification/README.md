# kona_rs

K3-style array primitives, BitTorrent piece scheduling and the text side of
a small retrieval-augmented generation pipeline, written in Verus.

## Layout

- `src/` — the verified library. Values of K (`k.rs`) are integer atoms,
  integer vectors and general lists, specified over the model `KV`.
  - `va.rs`, `parallel.rs`, `rounding.rs`: dyadic scalar verbs with scalar
    extension (comparisons go through the exact value of the nearest double),
    dot product, match, floor and ceiling.
  - `shape.rs`, `search.rs`, `grade.rs`, `adverb.rs`: first, reverse, take,
    transpose, gather, find, where, unique, grades, over, scan and each.
  - `ffi.rs`: the registry of foreign functions called through `2:`.
  - `torrent.rs`, `swarm.rs`, `command.rs`, `rng.rs`: piece selection, the
    swarm client's state and command language, and the generator of the
    simulated swarm.
  - `rag.rs`, `tfidf.rs`: tokenizer, ChatML prompt, vocabulary with document
    frequencies and term counts.
  - `primitives.rs`, `piece.rs`: the primitive registry and pieces.
  - `laws.rs`: properties that relate several verbs.
- `tests/` — tests of the library.
- `app/` — the programs (`swarm`, `rag`, `math`, `bench`) and everything
  that works on doubles: the verbs on floating-point data, TF-IDF weights and
  ranking, and the threaded kernels.
