# ruvector

Vector search in verified Rust: executable code whose behaviour is stated in `requires` and
`ensures` clauses and proved with Verus.

## Layout

- `src/` is the library. Every function in it is verified, except for the small wrappers around
  `rand`, `blake3` and `serde_json` in `rng.rs`, `witness/digest.rs`, `diskann/ids.rs` and
  `diskann/settings.rs`, whose contracts are taken on trust and say so.
- `tests/` runs the library on concrete values.
- `app/` is ordinary Rust around the library: distance kernels, random data, files, threads,
  and a benchmark for each kind of search.

## How numbers are represented

The library computes with the bit patterns of single-precision numbers. `float_order` says how
patterns compare, `single` how integers and their quotients are rounded to them. Distances are
measured by whatever implements `metric::Metric`; the application hands in its kernels as
`metric::Computed`.

Ties are broken by number: of two equally near vectors the one with the lower id comes first.

## What is proved, in short

- A beam search returns distinct nodes in order, each with its own distance. A wider beam keeps
  every true neighbour that a narrower one found.
- A pruned graph keeps to its degree, and what an index writes it reads back.
- A minimum cut is one: no other cut weighs less than it by more than the stated slack.
- Retrieval keeps to its budget.
- Two logs with one head hold the same records, and a proof of inclusion is accepted only for
  a record of the segment, unless two inputs share a digest.
