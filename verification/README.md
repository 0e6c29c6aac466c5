# wqc_recursion

The logic of a recursive verifier for Circle-STARK proofs over Mersenne31, written and proved in
Verus.

- `src/` is the library. Its functions are verified, except those marked `external_body`: Verus
  trusts the contracts of these and does not read their bodies (see below).
  - Arithmetic: `field`, `ext`, `ext_ring`, `circle`, `bits`.
  - Hashing: `keccak_f_native`, `merkle`, `merkle_keccak`, `merkle_poseidon2`, `batch_path`.
  - Transcript and replay: `transcript`, `fri_fs_replay`, `domains`, `fri_ood`.
  - Folding and reduced openings: `fri_fold_native`, `fri_fold_air`, `fri_fold_group`, `fri_ro`,
    `deep_ro_native`, `deep_ro_air`, `deep_ro_leaf_trace_air`.
  - Constraint systems for hashing: `keccak_f_air`, `keccak256_air`, `keccak_merkle_air`,
    `fri_mmcs_path_m4a`, `fri_mmcs_group_m4b`, built from `sponge_gadgets`, `path_gadgets` and
    `segments`.
  - Bundles and certificates: `val_mmcs`, `chal_mmcs`, `fri_mmcs_bind`, `fri_mmcs_m4c`,
    `mmcs_strip`, `mmcs_hydrate`, `leaf_pcs_cert`, `leaf_pcs_build`, `leaf_bundle`.
  - Laws of the hashing systems: `sponge_laws` and `sponge_converse`, `path_trace_laws` and
    `path_trace_converse`, `group_trace_laws`; of the Keccak rounds: `keccak_round_laws`; of
    bundles dropped and filled in again: `mmcs_bundle_laws`.
- `tests/` runs the library with the real proof system linked.
- `app/` connects the library to the proof system: adapters of its traits, proof decoding,
  settings.

Calls into outside crates stand behind functions marked `external_body`, each with a contract
and a comment that names the function called. These contracts are trusted, and every proof that
uses one rests on it; what some of the functions return is only named, by a spec function
without a body. What the surrounding system supplies, such as a
prover or a verifier of one constraint system, comes in as a closure or through `LeafSystem`.
