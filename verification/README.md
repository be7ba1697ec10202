# hekate

Building blocks of a proof system over binary tower fields, verified with
Verus: field arithmetic up to GF(2^128), traces and multilinear polynomials,
hashing, Merkle trees and transcripts, protocol parameters, and the tables and
constraints of a few computations (integer arithmetic, memory, program ROM, the
AES S-box, modular exponentiation).

- `src/` is the library. Every function states what it returns or changes, and
  Verus proves it. Laws that relate several functions are public proof
  functions named `law_*`.
- `app/` holds what surrounds it: serialised proofs, displayed errors, security
  estimates in floating point, and the generator behind the traits of `rand`.
- `tests/` runs the library on concrete values.

What the library takes from other crates it takes through small functions whose
contracts are trusted: the arithmetic, the changes of basis and the sparse
matrix of `hekate-math`, the hash of `sha2`, the block cipher of `aes` and the
overwriting of `zeroize`. So are the standard library's `sort_by_key` on slices
and `Duration::from_secs`.
