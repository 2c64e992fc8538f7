# rope

Ropes are immutable strings of bytes that share their contents: cloning one, or making
one part of another, copies no bytes.

- `src/elem.rs`: the tree behind a rope, and what its chunks are
- `src/rope.rs`: `Rope`, and when two ropes are equal
- `src/builder.rs`: `RopeBuilder`, which puts a rope together
- `src/reader.rs`: `RopeReader`, which reads one from front to back
- `src/text.rs`: ropes as text
- `src/hash.rs`: what a rope tells a hasher
- `src/laws.rs`: what holds across several calls
- `src/foreign.rs`: what is taken on trust from `bytes`, `tokio` and the standard library
- `app/`: the traits of `serde`, `tokio`, `futures` and `anyhow` on ropes

A rope stands for the sequence of its bytes, `rope@`, and is made of non-empty runs of
them, `rope.chunks()`. The contracts speak of these two. The library is verified with
[Verus](https://github.com/verus-lang/verus).
