use wqc_recursion::constraint::{RowEvaluator, Window};
use wqc_recursion::field::Val;
use wqc_recursion::fri_mmcs_group_m4b::{
    generate_keccak_group_fold_proof, MmcsGroupPathAir, MmcsPathStatement,
};
use wqc_recursion::fri_mmcs_path_m4a::{generate_fri_mmcs_batched_path_proof, MmcsBatchedPathAir};
use wqc_recursion::keccak_merkle_air::{generate_keccak_merkle_path_proof, MerkleFoldAir};
use wqc_recursion::matrix::RowMajorMatrix;
use wqc_recursion::merkle_keccak::{hash_val_leaf_keccak, merkle_root_from_path_keccak};

fn holds(m: &RowMajorMatrix, pv: &[Val], eval: impl Fn(&mut RowEvaluator, &Window<Val>)) -> bool {
    let pv = pv.to_vec();
    (0..m.height()).all(|i| {
        let mut sink = RowEvaluator::new();
        eval(&mut sink, &m.window(i, &pv));
        sink.satisfied()
    })
}

/// The publics with the element at `at` moved by one.
fn moved(pv: &[Val], at: usize) -> Vec<Val> {
    let mut out = pv.to_vec();
    out[at] = Val::from_u32(out[at].as_canonical_u32() ^ 1);
    out
}

fn path_of(width: u32, depth: u8, index: usize) -> MmcsPathStatement {
    let row: Vec<Val> = (0..width).map(|i| Val::from_u32(7 * i + 1)).collect();
    let siblings: Vec<[u8; 32]> = (0..depth).map(|i| [i + 40; 32]).collect();
    let leaf = hash_val_leaf_keccak(&row);
    let root = merkle_root_from_path_keccak(leaf, &siblings, index);
    MmcsPathStatement {
        row,
        siblings,
        index,
        root,
    }
}

fn run_path(s: &MmcsPathStatement) -> (bool, bool, bool) {
    let mut seen = None;
    let cell = std::cell::RefCell::new(&mut seen);
    let prover = |air: &MmcsBatchedPathAir, m: &RowMajorMatrix, pv: &[Val]| {
        let len = air.leaf_msg_len;
        let run = |p: &[Val]| holds(m, p, |sink, w| air.eval(sink, w));
        **cell.borrow_mut() = Some((run(pv), run(&moved(pv, len + 32)), run(&moved(pv, 0))));
        Ok::<Vec<u8>, String>(vec![])
    };
    generate_fri_mmcs_batched_path_proof(&s.row, &s.siblings, s.index, &s.root, &prover).unwrap();
    seen.unwrap()
}

#[test]
fn path_trace_satisfies_its_system() {
    assert_eq!(run_path(&path_of(3, 2, 2)), (true, false, false));
}

#[test]
fn two_block_path_trace_satisfies_its_system() {
    assert_eq!(run_path(&path_of(66, 1, 1)), (true, false, false));
}

#[test]
fn full_block_path_trace_satisfies_its_system() {
    assert_eq!(run_path(&path_of(34, 1, 0)), (true, false, false));
}

#[test]
fn index_beyond_the_depth_is_not_covered() {
    assert_eq!(run_path(&path_of(3, 1, 2)).0, false);
}

#[test]
fn group_trace_satisfies_its_system() {
    let stmts = [path_of(3, 1, 1), path_of(3, 1, 0)];
    let prover = |air: &MmcsGroupPathAir, m: &RowMajorMatrix, pv: &[Val]| {
        let len = air.leaf_msg_len;
        let run = |p: &[Val]| holds(m, p, |sink, w| air.eval(sink, w));
        assert!(run(pv));
        // The root of the second path.
        assert!(!run(&moved(pv, 2 + (len + 1365) + len + 32)));
        Ok::<Vec<u8>, String>(vec![1])
    };
    let proof = generate_keccak_group_fold_proof(&stmts, &prover).unwrap();
    assert_eq!(proof.path_count, 2);
    assert_eq!(proof.group_stark, vec![1]);
}

#[test]
fn index_bits_trace_satisfies_its_system() {
    let s = path_of(66, 3, 6);
    let fold = |air: &MerkleFoldAir, m: &RowMajorMatrix, pv: &[Val]| {
        let run = |p: &[Val]| holds(m, p, |sink, w| air.eval(sink, w));
        assert!(run(pv));
        assert!(!run(&moved(pv, 64)));
        Ok::<Vec<u8>, String>(vec![2])
    };
    let sponge = |_: &wqc_recursion::keccak256_air::Keccak256SpongeAir,
                  _: &RowMajorMatrix,
                  _: &[Val]| Ok::<Vec<u8>, String>(vec![]);
    let proof = generate_keccak_merkle_path_proof(
        &s.row,
        &s.siblings,
        s.index,
        &s.root,
        &sponge,
        &fold,
    )
    .unwrap();
    assert_eq!(proof.fold_stark, vec![2]);
    assert_eq!(proof.layer_digests[2], s.root);
}
