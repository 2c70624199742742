# recoverme

Recovery of a BIP39 passphrase (or of missing mnemonic words) from what the
owner remembers, against a known master fingerprint or master xpub.

The library under `src/` is written in Verus: every function carries a
`requires`/`ensures` contract, and the proofs are checked by the verifier.

- `domain`, `input`, `config`, `settings`: the inputs (written words, recipes,
  targets, settings) and their validation.
- `phase`, `casing`, `spacing`, `combinatorics`, `multiset`, `neighbors`,
  `bases`, `trie`, `language`, `search`: the deterministic passphrase search —
  phases, case and spacing patterns, ranked permutations of each base word
  list, and exact per-phase candidate counts.
- `mnemonic`, `mnemonic_engine`, `mnemonic_state`, `bignat`: the search over
  missing mnemonic words, with checksum validation and ranks of any size.
- `crypto`, `digest`: seed derivation and target matching, through the
  `bip39`, `bip32`, `pbkdf2`, `hmac`, `sha2` and `hex` crates behind small
  trusted wrappers whose contracts name what those crates compute.
- `state`, `engine`, `benchmark`, `hybrid`, `backend`, `report`: checkpointed
  progress, batch preparation, benchmark bookkeeping and reports.

`app/` is the command-line program around the library: argument parsing,
files and permissions, timing, threads and interruption. `tests/` exercises
the library through its public interface.
