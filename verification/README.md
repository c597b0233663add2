# privacy_stablecoin

A compliant privacy stablecoin's client core, verified with Verus.

- `src/` — the verified library: BN254 field elements and G1 points
  (`field`, `curve`), Poseidon hashing (`poseidon`), notes (`note`), the
  incremental Merkle tree (`merkle`), the JoinSplit constraints
  (`joinsplit`), the note wallet (`wallet`), Lagrange interpolation facts
  (`lagrange`), how key generation meets decryption (`dkg`), threshold EC-ElGamal auditing (`audit`, `audit_error`),
  hexadecimal and JSON text (`encoding`), the browser-facing operations
  (`wasm`) and the on-chain audit replay (`audit_replay`). Calls into
  arkworks, `poseidon-bn128`, `sha2`, `hex`, `serde_json` and `rand` sit
  behind small trusted wrappers whose contracts state what those crates do.
- `tests/` — tests of the library.
- `app/` — the unverified shell: the `wasm-bindgen` entry points, the two
  command-line audit checks that read the key file and the chain's
  broadcast log, and the serde and `thiserror` forms of the library's types.
