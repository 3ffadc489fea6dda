# merk

A verified key-value store that answers for what it holds. The entries live in
a Merkle radix trie, so the store has a root hash, and whoever knows that hash
can check what others say about the store.

## What it does

- `mrt::Tree` stores byte strings under byte strings. It reads, writes, removes
  ranges and prefixes, and moves all keys with one prefix under another.
  `mrt::Checkpoint` keeps what a tree held at some moment.
- `Checkpoint::prove` proves what a query finds, and `mrt::verify` checks such a
  proof against a root hash. A proof shows just the part of the trie that the
  query needs.
- `mrt::TraceRecorder` records a session of reads and writes as a trace.
  `mrt::TraceReplayer` replays the session on the trace, with no store at hand.
- `proofs` makes and checks proofs of queries on Merkle binary search trees.

## What is proved

The contracts speak of mathematical values: a store is a map, a trie is a value
of `mrt::model::Trie`, a query is a list of `proofs::query::QueryPart`. Beside
the contracts stand laws, public proof functions whose names begin with `law_`:

- a write does to the trie what it does to the map (`mrt::store`), and one
  write undoes another as it should (`mrt::undo`);
- the contents determine the root hash (`mrt::keys`), and, as long as SHA-256
  has no collision among the data at hand, the root hash determines the
  contents (`mrt::soundness`);
- detaching a prefix parts the store, and splicing replaces what stands at the
  destination (`mrt::parts`);
- decoding undoes encoding, and no two traces have one byte form (`mrt::wire`);
  a trace that is read from a stream is read to its end and not past it
  (`mrt::framing`);
- ranges, prefixes and walks list the store in order (`mrt::order`);
- a proof is unique and checks, and what it shows is true (`mrt::query_proof`,
  `mrt::soundness`);
- a trace shows no more than its session needs, and a session that runs on a
  trace runs on the store, with the same answers and root hash (`mrt::tracer`,
  `mrt::soundness`);
- queries on search trees: every proof checks, and what checks is true
  (`proofs::completeness`, `proofs::soundness`).

What is trusted is marked `#[verifier::external_body]`: the call of SHA-256,
the sharing of nodes, the bounds of standard ranges, a random generator for test
batches, and the formatter that debug output goes to.

## Layout

- `src/` is the verified library.
- `tests/` runs it.
- `app/` is ordinary Rust around it: a store behind a lock, iterators, errors
  that can be shown, and the `ed` and `serde` forms of traces.
