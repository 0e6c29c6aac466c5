use p3_commit::Mmcs;
use p3_field::PrimeCharacteristicRing;
use p3_field::PrimeField32;
use p3_keccak::Keccak256Hash;
use p3_merkle_tree::MerkleTreeMmcs;
use p3_mersenne_31::{default_mersenne31_poseidon2_16, Mersenne31, Poseidon2Mersenne31};
use p3_symmetric::{CryptographicHasher, PaddingFreeSponge, TruncatedPermutation};
use wqc_recursion::agg_constraints::AGG_WIDTH;
use wqc_recursion::batch_path::{
    generate_chal_batch_path, verify_chal_batch_path_digests, verify_chal_batch_path_replay,
    BatchError, Dimensions, FriChalBatchPathProof,
};
use wqc_recursion::chal_mmcs::FriChalMmcsQueryProof;
use wqc_recursion::field::Val;
use wqc_recursion::fri_mmcs_group_m4b::{
    m4b_group_chunk, m4b_group_chunk_from_env, KeccakGroupFoldProof, M4bChunkGuard,
};
use wqc_recursion::fri_mmcs_path::{
    generate_fri_mmcs_path_proof, generate_fri_mmcs_path_proof_drop_nested,
    verify_fri_mmcs_path_proof, FriMmcsPathProof, PathError,
};
use wqc_recursion::keccak256_air::Keccak256StarkProof;
use wqc_recursion::merkle_keccak::{compress_digests, hash_val_leaf, hash_val_leaf_keccak};
use wqc_recursion::merkle_poseidon2::{
    compress_digests_poseidon, hash_val_leaf_poseidon, merkle_root_from_path_poseidon,
    pack_digest, unpack_digest,
};
use wqc_recursion::mmcs_group_fold::{
    mmcs_group_hash_kind, poseidon_group_width_supported, MmcsGroupFoldProof, MmcsGroupHashKind,
};
use wqc_recursion::mmcs_strip::{
    chal_mmcs_sibling_wire_bytes, mmcs_sibling_strip_enabled,
    strip_chal_mmcs_siblings_for_groups, strip_val_mmcs_siblings_for_groups,
    val_mmcs_sibling_wire_bytes, LeafMmcsFoldGroups,
};
use wqc_recursion::path_strip::{
    batch_starks_stripped, path_digests_stripped, strip_chal_batch_starks,
    strip_fri_mmcs_path_starks, verify_fri_mmcs_path_digests,
};
use wqc_recursion::val_mmcs::FriValMmcsQueryProof;

#[test]
fn strip_batch_clears_starks() {
    let mut batch = FriChalBatchPathProof {
        index: 0,
        siblings: vec![[1u8; 32]],
        leaf_rows: vec![vec![Val::from_u32(1); 3]],
        leaf_keccs: vec![Keccak256StarkProof {
            msg_len: 12,
            digest: [2u8; 32],
            stark: vec![1, 2, 3],
        }],
        leaf_digests: vec![[2u8; 32]],
        sib_compresses: vec![Keccak256StarkProof {
            msg_len: 64,
            digest: [3u8; 32],
            stark: vec![4],
        }],
        sib_layer_digests: vec![[3u8; 32]],
        inject_compresses: vec![],
        inject_digests: vec![],
        inject_leaf_indices: vec![],
    };
    assert!(!batch_starks_stripped(&batch));
    strip_chal_batch_starks(&mut batch);
    assert!(batch_starks_stripped(&batch));
}

#[test]
fn strip_val_siblings_clears_grouped_categories() {
    let mut bundle = vec![FriValMmcsQueryProof {
        trace_index: 0,
        quot_index: 0,
        trace_siblings: vec![[1u8; 32], [2u8; 32]],
        quot_siblings: vec![[3u8; 32]],
        trace_path: FriMmcsPathProof {
            depth: 1,
            leaf_width: 3,
            leaf_digest: [0u8; 32],
            layer_digests: vec![[0u8; 32]],
            fold_stark: vec![],
            leaf_keccak: Keccak256StarkProof {
                msg_len: 12,
                digest: [0u8; 32],
                stark: vec![],
            },
            compress_starks: vec![Keccak256StarkProof {
                msg_len: 64,
                digest: [0u8; 32],
                stark: vec![],
            }],
        },
        quot_path: FriMmcsPathProof {
            depth: 1,
            leaf_width: 3,
            leaf_digest: [0u8; 32],
            layer_digests: vec![[0u8; 32]],
            fold_stark: vec![],
            leaf_keccak: Keccak256StarkProof {
                msg_len: 12,
                digest: [0u8; 32],
                stark: vec![],
            },
            compress_starks: vec![Keccak256StarkProof {
                msg_len: 64,
                digest: [0u8; 32],
                stark: vec![],
            }],
        },
        quot_batch: None,
    }];
    let groups = LeafMmcsFoldGroups {
        val_trace: vec![MmcsGroupFoldProof::Keccak(KeccakGroupFoldProof {
            path_count: 1,
            depth: 1,
            leaf_width: 3,
            group_stark: vec![1],
        })],
        val_quot: vec![MmcsGroupFoldProof::Keccak(KeccakGroupFoldProof {
            path_count: 1,
            depth: 1,
            leaf_width: 3,
            group_stark: vec![1],
        })],
        ..Default::default()
    };
    let saved = strip_val_mmcs_siblings_for_groups(&mut bundle, &groups, None);
    assert_eq!(saved, 32 * (2 + 1));
    assert!(bundle[0].trace_siblings.is_empty());
    assert!(bundle[0].quot_siblings.is_empty());
}

#[test]
fn strip_chal_siblings_clears_grouped_categories() {
    let mut bundle = vec![FriChalMmcsQueryProof {
        first_layer: FriChalBatchPathProof {
            index: 0,
            siblings: vec![[1u8; 32], [2u8; 32]],
            leaf_rows: vec![vec![Val::zero(); 6]],
            leaf_keccs: vec![],
            leaf_digests: vec![[0u8; 32]],
            sib_compresses: vec![],
            sib_layer_digests: vec![[0u8; 32], [0u8; 32]],
            inject_compresses: vec![],
            inject_digests: vec![],
            inject_leaf_indices: vec![],
        },
        commit_indices: vec![0, 1],
        commit_siblings: vec![vec![[3u8; 32]], vec![[4u8; 32], [5u8; 32]]],
        commit_paths: vec![
            FriMmcsPathProof {
                depth: 1,
                leaf_width: 6,
                leaf_digest: [0u8; 32],
                layer_digests: vec![[0u8; 32]],
                fold_stark: vec![],
                leaf_keccak: Keccak256StarkProof {
                    msg_len: 24,
                    digest: [0u8; 32],
                    stark: vec![],
                },
                compress_starks: vec![],
            },
            FriMmcsPathProof {
                depth: 2,
                leaf_width: 6,
                leaf_digest: [0u8; 32],
                layer_digests: vec![[0u8; 32], [0u8; 32]],
                fold_stark: vec![],
                leaf_keccak: Keccak256StarkProof {
                    msg_len: 24,
                    digest: [0u8; 32],
                    stark: vec![],
                },
                compress_starks: vec![],
            },
        ],
    }];
    let groups = LeafMmcsFoldGroups {
        chal_first_layer: vec![MmcsGroupFoldProof::Keccak(KeccakGroupFoldProof {
            path_count: 1,
            depth: 2,
            leaf_width: 6,
            group_stark: vec![1],
        })],
        chal_commit: vec![MmcsGroupFoldProof::Keccak(KeccakGroupFoldProof {
            path_count: 1,
            depth: 1,
            leaf_width: 6,
            group_stark: vec![1],
        })],
        ..Default::default()
    };
    let saved = strip_chal_mmcs_siblings_for_groups(&mut bundle, &groups, None);
   
    assert_eq!(saved, 32 * (2 + 1));
    assert!(bundle[0].commit_siblings[0].is_empty());
    assert_eq!(bundle[0].commit_siblings[1].len(), 2);
}

#[test]
fn strip_chal_merged_fl_commit_clears_all_siblings() {
    let mut bundle = vec![FriChalMmcsQueryProof {
        first_layer: FriChalBatchPathProof {
            index: 0,
            siblings: vec![[1u8; 32], [2u8; 32]],
            leaf_rows: vec![],
            leaf_keccs: vec![],
            leaf_digests: vec![],
            sib_compresses: vec![],
            sib_layer_digests: vec![],
            inject_compresses: vec![],
            inject_digests: vec![],
            inject_leaf_indices: vec![],
        },
        commit_siblings: vec![vec![[3u8; 32]], vec![[4u8; 32], [5u8; 32]]],
        commit_indices: vec![0, 0],
        commit_paths: vec![
            FriMmcsPathProof {
                depth: 1,
                leaf_width: 6,
                leaf_digest: [0u8; 32],
                layer_digests: vec![[0u8; 32]],
                fold_stark: vec![],
                leaf_keccak: Keccak256StarkProof {
                    msg_len: 24,
                    digest: [0u8; 32],
                    stark: vec![],
                },
                compress_starks: vec![],
            },
            FriMmcsPathProof {
                depth: 2,
                leaf_width: 6,
                leaf_digest: [0u8; 32],
                layer_digests: vec![[0u8; 32], [0u8; 32]],
                fold_stark: vec![],
                leaf_keccak: Keccak256StarkProof {
                    msg_len: 24,
                    digest: [0u8; 32],
                    stark: vec![],
                },
                compress_starks: vec![],
            },
        ],
    }];
    let groups = LeafMmcsFoldGroups {
        chal_commit: vec![MmcsGroupFoldProof::Keccak(KeccakGroupFoldProof {
            path_count: 3,
            depth: 2,
            leaf_width: 6,
            group_stark: vec![1],
        })],
        ..Default::default()
    };
    let saved = strip_chal_mmcs_siblings_for_groups(&mut bundle, &groups, None);
    assert_eq!(saved, 32 * (2 + 1 + 2));
    assert!(bundle[0].first_layer.siblings.is_empty());
    assert!(bundle[0].commit_siblings.iter().all(|s| s.is_empty()));
}

fn sib(seed: u32) -> [u8; 32] {
    pack_digest(&[Val::from_u32(seed); 8])
}

#[test]
fn fri_mmcs_path_quot_width3_depth1() {
    let row = [Val::from_u32(1), Val::from_u32(2), Val::from_u32(3)];
    let leaf = hash_val_leaf(&row);
    let sibling = sib(9);
    let root = compress_digests(leaf, sibling);
    let proof = generate_fri_mmcs_path_proof(&row, &[sibling], 0, &root).expect("record");
    assert!(verify_fri_mmcs_path_proof(
        &row,
        &[sibling],
        0,
        &root,
        &proof
    ));
}

#[test]
fn fri_mmcs_path_chal_width6() {
    let row: Vec<Val> = (0..6).map(|i| Val::from_u32(i + 10)).collect();
    let leaf = hash_val_leaf(&row);
    let sibling = sib(3);
    let root = compress_digests(sibling, leaf);
    let proof = generate_fri_mmcs_path_proof(&row, &[sibling], 1, &root).expect("record");
    assert!(verify_fri_mmcs_path_proof(
        &row,
        &[sibling],
        1,
        &root,
        &proof
    ));
    assert!(!verify_fri_mmcs_path_proof(
        &row,
        &[sibling],
        0,
        &root,
        &proof
    ));
}

#[test]
fn fri_mmcs_path_drop_nested_keeps_digests() {
    let row = [Val::from_u32(1), Val::from_u32(2), Val::from_u32(3)];
    let leaf = hash_val_leaf(&row);
    let sibling = sib(9);
    let root = compress_digests(leaf, sibling);
    let proof =
        generate_fri_mmcs_path_proof_drop_nested(&row, &[sibling], 0, &root).expect("record");
    assert!(proof.fold_stark.is_empty());
    assert!(proof.leaf_keccak.stark.is_empty());
    assert!(proof.compress_starks.iter().all(|c| c.stark.is_empty()));
    assert_eq!(proof.leaf_digest, leaf);
    assert_eq!(proof.layer_digests[0], root);
    assert!(verify_fri_mmcs_path_proof(
        &row,
        &[sibling],
        0,
        &root,
        &proof
    ));
}

#[test]
fn path_record_errors() {
    let row = [Val::from_u32(1)];
    assert_eq!(
        generate_fri_mmcs_path_proof(&row, &[], 0, &[0u8; 32]),
        Err(PathError::Depth)
    );
    assert_eq!(
        generate_fri_mmcs_path_proof(&row, &[sib(1); 21], 0, &[0u8; 32]),
        Err(PathError::Depth)
    );
    assert_eq!(
        generate_fri_mmcs_path_proof(&row, &[sib(1)], 0, &[0u8; 32]),
        Err(PathError::RootMismatch)
    );
}

#[test]
fn stripped_path_still_valid_by_digests() {
    let row = [Val::from_u32(1), Val::from_u32(2), Val::from_u32(3)];
    let sibling = sib(9);
    let root = compress_digests(hash_val_leaf(&row), sibling);
    let mut path = generate_fri_mmcs_path_proof(&row, &[sibling], 0, &root).expect("record");
    strip_fri_mmcs_path_starks(&mut path);
    assert!(verify_fri_mmcs_path_digests(
        &row,
        &[sibling],
        0,
        &root,
        &path
    ));
    assert!(!path_digests_stripped(&path));
    assert!(!verify_fri_mmcs_path_digests(
        &row,
        &[sibling],
        1,
        &root,
        &path
    ));
}

#[test]
fn mixed_height_batch_roundtrip() {
    let tall: Vec<Val> = (0..3).map(|i| Val::from_u32(i + 1)).collect();
    let short: Vec<Val> = (0..2).map(|i| Val::from_u32(i + 40)).collect();
    let dims = vec![
        Dimensions {
            width: 2,
            height: 2,
        },
        Dimensions {
            width: 3,
            height: 4,
        },
    ];
    let siblings = [sib(5), sib(6)];
    let lower = compress_digests(siblings[0], hash_val_leaf(&tall));
    let joined = compress_digests(lower, hash_val_leaf(&short));
    let root = compress_digests(joined, siblings[1]);
    let rows = vec![short.clone(), tall.clone()];
    let mut batch = generate_chal_batch_path(&rows, &dims, 1, &siblings, &root).expect("record");
    assert_eq!(batch.inject_digests.len(), 1);
    assert!(verify_chal_batch_path_replay(&rows, &dims, 1, &root, &batch));
    strip_chal_batch_starks(&mut batch);
    assert!(verify_chal_batch_path_digests(&rows, &dims, 1, &root, &batch));
    assert!(!verify_chal_batch_path_digests(
        &rows, &dims, 1, &[0u8; 32], &batch
    ));
    assert_eq!(
        generate_chal_batch_path(&rows, &dims, 1, &siblings, &[0u8; 32]),
        Err(BatchError::RootMismatch)
    );
    assert_eq!(
        generate_chal_batch_path(&rows, &dims, 1, &siblings[..1], &root),
        Err(BatchError::TooFewSiblings)
    );
}

#[test]
fn leaf_hash_keccak_matches_native_bytes() {
    let row: Vec<Val> = (0..AGG_WIDTH).map(|i| Val::from_u32(i as u32)).collect();
    let bytes: Vec<u8> = row
        .iter()
        .flat_map(|v| v.as_canonical_u32().to_le_bytes())
        .collect();
    let want: [u8; 32] = Keccak256Hash {}.hash_iter(bytes);
    assert_eq!(hash_val_leaf_keccak(&row), want);
}

#[test]
fn poseidon_leaf_hash_deterministic() {
    let row = vec![Val::from_u32(1), Val::from_u32(2), Val::from_u32(3)];
    let a = hash_val_leaf_poseidon(&row);
    let b = hash_val_leaf_poseidon(&row);
    assert_eq!(a, b);
    assert_ne!(a, [0u8; 32]);
}

#[test]
fn poseidon_wide_leaf_hash_w48() {
    let row: Vec<Val> = (0..48).map(|i| Val::from_u32(i + 7)).collect();
    let a = hash_val_leaf_poseidon(&row);
    let b = hash_val_leaf_poseidon(&row);
    assert_eq!(a, b);
    assert_ne!(a, hash_val_leaf_poseidon(&row[..8]));
}

#[test]
fn poseidon_leaf_matches_val_mmcs() {
    type Perm = Poseidon2Mersenne31<16>;
    type Leaf = PaddingFreeSponge<Perm, 16, 8, 8>;
    type Node = TruncatedPermutation<Perm, 2, 8, 16>;
    type Tree = MerkleTreeMmcs<Mersenne31, Mersenne31, Leaf, Node, 2, 8>;
    let perm = default_mersenne31_poseidon2_16();
    let mmcs = Tree::new(Leaf::new(perm.clone()), Node::new(perm), 0);
    let row: Vec<Val> = (0..3).map(|i| Val::from_u32(i + 9)).collect();
    let p3_row = |r: &[Val]| -> Vec<Mersenne31> {
        r.iter()
            .map(|v| Mersenne31::from_u32(v.as_canonical_u32()))
            .collect()
    };
    let packed = |d: &[Mersenne31; 8]| pack_digest(&d.map(|v| Val::from_u32(v.as_canonical_u32())));
    let mat = p3_matrix::dense::RowMajorMatrix::new(p3_row(&row), 3);
    let (commit, _) = mmcs.commit(vec![mat]);
    assert_eq!(hash_val_leaf_poseidon(&row), packed(&commit.roots()[0]));

    let second: Vec<Val> = (0..3).map(|i| Val::from_u32(i + 70)).collect();
    let mut both = p3_row(&row);
    both.extend(p3_row(&second));
    let (commit, _) = mmcs.commit(vec![p3_matrix::dense::RowMajorMatrix::new(both, 3)]);
    assert_eq!(
        compress_digests_poseidon(
            hash_val_leaf_poseidon(&row),
            hash_val_leaf_poseidon(&second)
        ),
        packed(&commit.roots()[0])
    );
}

#[test]
fn poseidon_merkle_path_roundtrip() {
    let row = vec![Val::from_u32(9); 3];
    let leaf = hash_val_leaf_poseidon(&row);
    let sibling = pack_digest(&[Val::from_u32(7); 8]);
    let root = compress_digests_poseidon(leaf, sibling);
    let got = merkle_root_from_path_poseidon(leaf, &[sibling], 0);
    assert_eq!(got, root);
    assert_ne!(merkle_root_from_path_poseidon(leaf, &[sibling], 1), root);
}

#[test]
fn packed_digest_unpacks() {
    let limbs: [Val; 8] = [1u32, 2, 3, 0x7fff_fffe, 5, 0, 7, 8].map(Val::from_u32);
    assert_eq!(unpack_digest(&pack_digest(&limbs)), limbs);
    assert_eq!(&pack_digest(&limbs)[..5], &[1, 0, 0, 0, 2]);
}

#[test]
fn settings_by_text() {
    assert_eq!(mmcs_group_hash_kind(None), MmcsGroupHashKind::Poseidon);
    assert_eq!(
        mmcs_group_hash_kind(Some("KeCCaK")),
        MmcsGroupHashKind::Keccak
    );
    assert_eq!(
        mmcs_group_hash_kind(Some("other")),
        MmcsGroupHashKind::Poseidon
    );
    assert!(mmcs_sibling_strip_enabled(None));
    assert!(poseidon_group_width_supported(48));
    assert!(!poseidon_group_width_supported(69));
    assert_eq!(m4b_group_chunk_from_env(None), 24);
    assert_eq!(m4b_group_chunk_from_env(Some(" 7 ")), 7);
    assert_eq!(m4b_group_chunk_from_env(Some("0")), 24);
    assert_eq!(m4b_group_chunk_from_env(Some("9999")), 128);
    assert_eq!(m4b_group_chunk_from_env(Some("x")), 24);
    assert_eq!(m4b_group_chunk_from_env(Some("+8")), 8);
    assert_eq!(m4b_group_chunk_from_env(Some("\t 012\r\n")), 12);
    assert_eq!(m4b_group_chunk_from_env(Some("\u{a0}9\u{2003}")), 9);
    for text in ["", "+", "++8", "-8", "1 2", "1_0", "0x8", "\u{1f}8", "18446744073709551616"] {
        assert_eq!(m4b_group_chunk_from_env(Some(text)), 24);
    }
    assert_eq!(m4b_group_chunk(Some(3), Some("7")), 3);
    let mut slot: Option<usize> = None;
    let guard = M4bChunkGuard::set(&mut slot, 500);
    assert_eq!(slot, Some(128));
    guard.restore(&mut slot);
    assert_eq!(slot, None);
    assert_eq!(MmcsGroupHashKind::from_u8(1), Some(MmcsGroupHashKind::Poseidon));
    assert_eq!(MmcsGroupHashKind::from_u8(2), None);
    assert_eq!(MmcsGroupHashKind::Keccak.to_u8(), 0);
}

#[test]
fn sibling_bytes_counted() {
    let empty: Vec<FriValMmcsQueryProof> = Vec::new();
    assert_eq!(val_mmcs_sibling_wire_bytes(&empty), 0);
    let none: Vec<FriChalMmcsQueryProof> = Vec::new();
    assert_eq!(chal_mmcs_sibling_wire_bytes(&none), 0);
}
