# Pari

Pari finds similar sets. It sketches sets with MinHash, indexes the sketches in
the bands of a locality-sensitive hash, answers which items may be similar to a
query, and groups items that are. Indexes live in memory, in files, or in a
shared storage backend.

The library is written in [Verus](https://github.com/verus-lang/verus): what each
function does is stated in its `requires` and `ensures` clauses and proved.
Properties that span functions are public proof functions whose names begin with
`law_`.

## Layout

| Path | What it holds |
| --- | --- |
| `src/sketch/` | MinHash sketches with 32-bit and 64-bit permutations, and their hashes |
| `src/index/` | the in-memory index, its parameters and planner, candidate pairs, grouping |
| `src/format/` | the index file: header, sections, layout, key codecs, bucket segments |
| `src/store/` | snapshots, conversion, building from sorted runs, lazy queries, changes over a file, file creation |
| `src/backend/` | shared storage: the backend contract, memory and Redis, the index over them |
| `src/bench/` | workloads, runs, measurements, reports, storage layouts |
| `src/cli/` | what the commands decide and write |
| `src/binding.rs` | what language bindings need |
| `src/message.rs` | errors in words |
| `tests/` | scenarios on concrete values |
| `app/` | the program: arguments, files, Redis, Python, and floating point |

## Numbers

A similarity threshold is held as the bit pattern of a double, and rates are held
as quotients of integers. The candidate curve and its integrals are computed in
`app/curve.rs`; the library takes the error estimate of each tuning candidate
and selects among them.

## What is trusted

SHA-1 (`sha1`), CRC-32 (`crc32fast`), JSON (`serde_json`), UTF-8 decoding, sorting
and the clock are called through declarations whose contracts are believed. Each
says in its documentation what it claims.
