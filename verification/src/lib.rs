//! Verified logic of a recursive STARK verifier: Circle-FRI replay, Merkle openings, and the
//! constraint systems that prove them.
pub mod agg_constraints;
pub mod air;
pub mod air_m1;
pub mod batch_path;
pub mod benchmark_laws;
pub mod bits;
pub mod chal_mmcs;
pub mod checks;
pub mod child_binding;
pub mod child_binding_laws;
pub mod circle;
pub mod constraint;
pub mod context;
pub mod deep_bind_laws;
pub mod deep_ro_air;
pub mod deep_ro_bind;
pub mod deep_ro_leaf_laws;
pub mod deep_ro_leaf_trace_air;
pub mod deep_ro_native;
pub mod devnet;
pub mod domains;
pub mod ef_limbs;
pub mod ext;
pub mod ext_ring;
pub mod field;
pub mod flag_air;
pub mod fold_bind_laws;
pub mod framing;
pub mod fri_fold_air;
pub mod fri_fold_bind;
pub mod fri_fold_group;
pub mod fri_fold_m4c;
pub mod fri_fold_native;
pub mod fri_fs_replay;
pub mod fri_mmcs;
pub mod fri_mmcs_bind;
pub mod fri_mmcs_group_m4b;
pub mod fri_mmcs_m4c;
pub mod fri_mmcs_path;
pub mod fri_mmcs_path_m4a;
pub mod fri_ood;
pub mod fri_ro;
pub mod group_benchmark;
pub mod group_bind_laws;
pub mod group_trace_laws;
pub mod keccak256_air;
pub mod keccak_f_air;
pub mod keccak_f_native;
pub mod keccak_merkle_air;
pub mod keccak_round_laws;
pub mod leaf_bundle;
pub mod leaf_bundle_laws;
pub mod leaf_cert_laws;
pub mod leaf_pcs_build;
pub mod leaf_pcs_cert;
pub mod leaf_stmt;
pub mod matrix;
pub mod merkle;
pub mod merkle_keccak;
pub mod merkle_poseidon2;
pub mod mmcs_bind_laws;
pub mod mmcs_bundle_laws;
pub mod mmcs_group_fold;
pub mod mmcs_hydrate;
pub mod mmcs_statements;
pub mod mmcs_strip;
pub mod number_laws;
pub mod openings_laws;
pub mod path_check_laws;
pub mod path_converse;
pub mod path_gadgets;
pub mod path_laws;
pub mod path_strip;
pub mod path_trace_converse;
pub mod path_trace_laws;
pub mod pcs_view;
pub mod proof_check_laws;
pub mod proof_system;
pub mod reduction_laws;
pub mod replay_laws;
pub mod segments;
pub mod sponge_converse;
pub mod sponge_gadgets;
pub mod sponge_laws;
pub mod statement_laws;
pub mod strip_laws;
pub mod transcript;
pub mod val_mmcs;
