# cortex25519

X25519 key agreement and Ed25519 signatures, with the scalar arithmetic modulo the
base point's order `L` written out on 32-bit limbs and proved correct with Verus.

Layout of `src/`:

- `limbs.rs`: the value of little-endian limb and byte strings, and lemmas about them.
- `scalar.rs`: `Scalar` (eight 32-bit limbs) and `Scalar512`: schoolbook multiplication,
  Montgomery reduction, addition and subtraction modulo `L`, conversion from and to bytes,
  and laws of this arithmetic.
- `edwards.rs`: curve points, held by their canonical 32-byte encodings; the curve
  arithmetic and X25519 are done by `curve25519-dalek` and named by specification functions.
- `ed25519.rs`, `ed25519/custom_hash.rs`: signing, verification and key derivation, for
  SHA-512 and for any hash function of the `Ed25519DigestLength` trait (SHA-256 and SHA-512
  are provided); hashing is done by `sha2`.
- `wycheproof.rs`: Wycheproof test vector types and the verdict on each test case.

`app/` is a command-line runner for Wycheproof JSON files: it reads a file, runs its cases
through the library and prints one line per case; its `tokens` mode prints the vectors as
Rust source.
