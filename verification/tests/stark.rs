//! The constraint systems and the proof checks, run with a circle proof system.
use p3_air::{Air, AirBuilder, BaseAir, WindowAccess};
use p3_challenger::{HashChallenger, SerializingChallenger32};
use p3_circle::CirclePcs;
use p3_field::extension::BinomialExtensionField;
use p3_field::{PrimeCharacteristicRing, PrimeField32};
use p3_fri::FriParameters;
use p3_keccak::Keccak256Hash;
use p3_merkle_tree::MerkleTreeMmcs;
use p3_mersenne_31::Mersenne31;
use p3_symmetric::{
    CompressionFunctionFromHasher, CryptographicHasher, PseudoCompressionFunction,
    SerializingHasher,
};
use p3_commit::{BatchOpeningRef, ExtensionMmcs, Mmcs, Pcs as PcsTrait, PolynomialSpace};
use p3_matrix::Matrix;
use p3_uni_stark::{
    prove, recompose_quotient_from_chunks, verify, verify_constraints, Proof, StarkConfig,
    StarkGenericConfig,
};
use rand::{Rng, SeedableRng};
use sha3::{Digest, Sha3_256};
use std::marker::PhantomData;
use wqc_recursion::agg_constraints::{AGG_LEFT_OK_COL, AGG_RIGHT_OK_COL, AGG_WIDTH};
use wqc_recursion::batch_path::{
    generate_chal_batch_path, verify_chal_batch_path_replay, Dimensions,
};
use wqc_recursion::chal_mmcs::{flatten_pair, ChalMmcsError, CHAL_LEAF_WIDTH};
use wqc_recursion::circle::point_v_n;
use wqc_recursion::constraint::{ConstraintSink, Expr, Window};
use wqc_recursion::child_binding::{ChildMarkers, TrajectoryFrames};
use wqc_recursion::deep_ro_air::{
    generate_deep_ro_proof, verify_deep_ro_proof, DeepRoAir, DeepRoStepProof,
};
use wqc_recursion::deep_ro_bind::{bind_deep_ro_to_fold_y, deep_ro_quot_query0_from_agg_proof};
use wqc_recursion::deep_ro_leaf_trace_air::{
    generate_deep_ro_leaf_trace_proof, verify_deep_ro_leaf_trace_proof, DeepRoLeafTraceAir,
    DeepRoLeafTraceStepProof,
};
use wqc_recursion::ext::Challenge;
use wqc_recursion::field::Val;
use wqc_recursion::fri_fold_air::{
    fri_fold_step_limbs_x, fri_fold_step_limbs_y, generate_fri_fold_proof, verify_fri_fold_proof,
    verify_fri_fold_y_proof, FriFoldAir, FriFoldStepProof,
};
use wqc_recursion::fri_fold_bind::{fri_fold_bundle_from_agg_proof, AggFriFoldBundle};
use wqc_recursion::fri_fold_group::{
    generate_fri_fold_group_proof, verify_fri_fold_group_proof, FriFoldGroupAir,
    FriFoldGroupProof, FRI_FOLD_KIND_X, FRI_FOLD_KIND_Y, FRI_FOLD_KIND_YX,
};
use wqc_recursion::fri_fold_native::{
    challenge_to_limbs, limbs_to_challenge, solve_v0_for_fold, solve_v1_for_fold,
};
use wqc_recursion::fri_fs_replay::{
    decode_pcs_view, fri_queries_from_proof, replay_agg_fri_challenges, replay_fri_challenges,
    AggFriChallenges, ReplayError,
};
use wqc_recursion::fri_mmcs::{verify_agg_fri_openings, OpeningsError};
use wqc_recursion::fri_mmcs_bind::{
    bind_fri_mmcs_bundle_to_proof, bind_fri_mmcs_bundle_to_proof_width,
    fri_mmcs_bundle_from_agg_proof, fri_mmcs_bundle_from_proof, MmcsError,
};
use wqc_recursion::fri_mmcs_m4c::{bind_leaf_mmcs_with_groups, collect_leaf_mmcs_group_statements};
use wqc_recursion::fri_ood::{verify_agg_ood, verify_leaf_ood, OodError};
use wqc_recursion::fri_ro::{reconstruct_agg_query_ro, reconstruct_query_ro};
use wqc_recursion::group_benchmark::{
    benchmark_poseidon_mmcs_groups, BenchmarkError, PoseidonMmcsBenchmarkReport,
};
use wqc_recursion::leaf_bundle::{
    build_leaf_pcs_bundle_from_child, leaf_bundle_stmt_digest, verify_leaf_pcs_bundle,
    LeafBundleError, LeafFrames, LeafPcsBundle,
};
use wqc_recursion::leaf_pcs_build::build_leaf_pcs_certificate;
use wqc_recursion::leaf_pcs_cert::{
    verify_leaf_pcs_certificate, LeafCertError, LeafContext, LeafDeepBundle, LeafSystem,
};
use wqc_recursion::leaf_stmt::{leaf_stmt_digest, LeafKind, LeafRules};
use wqc_recursion::merkle_keccak::{verify_agg_merkle_path, AGG_LDE_MERKLE_DEPTH};
use wqc_recursion::mmcs_group_fold::{MmcsGroupFoldProof, PoseidonGroupFoldProof};
use wqc_recursion::mmcs_hydrate::{
    hydrate_chal_mmcs_siblings_from_proof, hydrate_val_mmcs_siblings_from_proof,
};
use wqc_recursion::mmcs_strip::{apply_leaf_mmcs_m4c_folds, LeafMmcsFoldGroups};
use wqc_recursion::pcs_view::{
    BatchOpeningView, CircleInputProofView, CirclePcsProofView, CommitPhaseStepView,
    FriParamsView, FriProofView, QueryProofView, StarkProofView,
};
use wqc_recursion::val_mmcs::ValMmcsError;
use wqc_recursion::fri_mmcs_group_m4b::{
    generate_keccak_group_fold_proof, verify_keccak_group_fold_proof, MmcsGroupPathAir,
    MmcsPathStatement,
};
use wqc_recursion::fri_mmcs_path::{generate_fri_mmcs_path_proof, verify_fri_mmcs_path_proof};
use wqc_recursion::fri_mmcs_path_m4a::{
    generate_fri_mmcs_batched_path_proof, verify_fri_mmcs_batched_path_proof, MmcsBatchedPathAir,
};
use wqc_recursion::keccak256_air::Keccak256SpongeAir;
use wqc_recursion::keccak_f_native::{keccak256_compress, num_permutations, val_row_to_bytes};
use wqc_recursion::keccak_merkle_air::{
    generate_keccak_merkle_path_proof, verify_keccak_merkle_path_proof, MerkleFoldAir,
    MERKLE_FOLD_DEPTH,
};
use wqc_recursion::matrix::RowMajorMatrix;
use wqc_recursion::merkle_keccak::{
    compress_digests, hash_lde_leaf, hash_val_leaf, hash_val_leaf_keccak,
    merkle_root_from_path_keccak,
};
use wqc_recursion::merkle_poseidon2::pack_digest;

/// An expression of a builder as an expression of the library.
struct Cell<R>(R);

impl<R: PrimeCharacteristicRing> Expr for Cell<R> {
    fn dup(&self) -> Self {
        Cell(self.0.clone())
    }

    fn lit(x: u32) -> Self {
        Cell(R::from_u32(x))
    }

    fn plus(&self, o: &Self) -> Self {
        Cell(self.0.clone() + o.0.clone())
    }

    fn minus(&self, o: &Self) -> Self {
        Cell(self.0.clone() - o.0.clone())
    }

    fn times(&self, o: &Self) -> Self {
        Cell(self.0.clone() * o.0.clone())
    }
}

struct Asserts<'a, AB: AirBuilder>(&'a mut AB);

impl<'a, AB: AirBuilder> ConstraintSink for Asserts<'a, AB> {
    type E = Cell<AB::Expr>;

    fn assert_zero(&mut self, e: Cell<AB::Expr>) {
        self.0.assert_zero(e.0);
    }
}

/// A constraint system of the library.
trait System: Sync {
    fn columns(&self) -> usize;
    fn degree(&self) -> Option<usize>;
    fn publics(&self) -> usize;
    fn run<S: ConstraintSink>(&self, sink: &mut S, w: &Window<S::E>);
}

impl System for Keccak256SpongeAir {
    fn columns(&self) -> usize {
        self.width()
    }
    fn degree(&self) -> Option<usize> {
        self.max_constraint_degree()
    }
    fn publics(&self) -> usize {
        self.num_public_values()
    }
    fn run<S: ConstraintSink>(&self, sink: &mut S, w: &Window<S::E>) {
        self.eval(sink, w)
    }
}

impl System for MerkleFoldAir {
    fn columns(&self) -> usize {
        self.width()
    }
    fn degree(&self) -> Option<usize> {
        self.max_constraint_degree()
    }
    fn publics(&self) -> usize {
        self.num_public_values()
    }
    fn run<S: ConstraintSink>(&self, sink: &mut S, w: &Window<S::E>) {
        self.eval(sink, w)
    }
}

impl System for MmcsBatchedPathAir {
    fn columns(&self) -> usize {
        self.width()
    }
    fn degree(&self) -> Option<usize> {
        self.max_constraint_degree()
    }
    fn publics(&self) -> usize {
        self.num_public_values()
    }
    fn run<S: ConstraintSink>(&self, sink: &mut S, w: &Window<S::E>) {
        self.eval(sink, w)
    }
}

impl System for MmcsGroupPathAir {
    fn columns(&self) -> usize {
        self.width()
    }
    fn degree(&self) -> Option<usize> {
        self.max_constraint_degree()
    }
    fn publics(&self) -> usize {
        self.num_public_values()
    }
    fn run<S: ConstraintSink>(&self, sink: &mut S, w: &Window<S::E>) {
        self.eval(sink, w)
    }
}

impl System for FriFoldAir {
    fn columns(&self) -> usize {
        self.width()
    }
    fn degree(&self) -> Option<usize> {
        self.max_constraint_degree()
    }
    fn publics(&self) -> usize {
        self.num_public_values()
    }
    fn run<S: ConstraintSink>(&self, sink: &mut S, w: &Window<S::E>) {
        self.eval(sink, w)
    }
}

impl System for FriFoldGroupAir {
    fn columns(&self) -> usize {
        self.width()
    }
    fn degree(&self) -> Option<usize> {
        self.max_constraint_degree()
    }
    fn publics(&self) -> usize {
        self.num_public_values()
    }
    fn run<S: ConstraintSink>(&self, sink: &mut S, w: &Window<S::E>) {
        self.eval(sink, w)
    }
}

impl System for DeepRoAir {
    fn columns(&self) -> usize {
        self.width()
    }
    fn degree(&self) -> Option<usize> {
        self.max_constraint_degree()
    }
    fn publics(&self) -> usize {
        self.num_public_values()
    }
    fn run<S: ConstraintSink>(&self, sink: &mut S, w: &Window<S::E>) {
        self.eval(sink, w)
    }
}

impl System for DeepRoLeafTraceAir {
    fn columns(&self) -> usize {
        self.width()
    }
    fn degree(&self) -> Option<usize> {
        self.max_constraint_degree()
    }
    fn publics(&self) -> usize {
        self.num_public_values()
    }
    fn run<S: ConstraintSink>(&self, sink: &mut S, w: &Window<S::E>) {
        self.eval(sink, w)
    }
}

struct Circuit<'a, A>(&'a A);

impl<'a, A: System> BaseAir<Mersenne31> for Circuit<'a, A> {
    fn width(&self) -> usize {
        self.0.columns()
    }
    fn num_public_values(&self) -> usize {
        self.0.publics()
    }
    fn max_constraint_degree(&self) -> Option<usize> {
        self.0.degree()
    }
}

impl<'a, A: System, AB: AirBuilder<F = Mersenne31>> Air<AB> for Circuit<'a, A> {
    fn eval(&self, builder: &mut AB) {
        let main = builder.main();
        let w = Window {
            curr: main.current_slice().iter().map(|v| Cell((*v).into())).collect(),
            next: main.next_slice().iter().map(|v| Cell((*v).into())).collect(),
            pv: builder.public_values().iter().map(|v| Cell((*v).into())).collect(),
            first: Cell(builder.is_first_row()),
            trans: Cell(builder.is_transition()),
        };
        self.0.run(&mut Asserts(builder), &w);
    }
}

/// The hash of the production tree.
#[derive(Clone, Debug)]
struct TreeHash;

impl CryptographicHasher<Mersenne31, [u8; 32]> for TreeHash {
    fn hash_iter<I: IntoIterator<Item = Mersenne31>>(&self, input: I) -> [u8; 32] {
        let row: Vec<Val> = input.into_iter().map(from_p3).collect();
        hash_val_leaf(&row)
    }
}

impl PseudoCompressionFunction<[u8; 32], 2> for TreeHash {
    fn compress(&self, input: [[u8; 32]; 2]) -> [u8; 32] {
        compress_digests(input[0], input[1])
    }
}

type Ext3 = BinomialExtensionField<Mersenne31, 3>;
type ValMmcs = MerkleTreeMmcs<Mersenne31, u8, TreeHash, TreeHash, 2, 32>;
type ChalMmcs = ExtensionMmcs<Mersenne31, Ext3, ValMmcs>;
type Pcs = CirclePcs<Mersenne31, ValMmcs, ChalMmcs>;
type Challenger = SerializingChallenger32<Mersenne31, HashChallenger<u8, Keccak256Hash, 32>>;
type Config = StarkConfig<Pcs, Ext3, Challenger>;

fn config(num_queries: usize) -> Config {
    let mmcs = ValMmcs::new(TreeHash, TreeHash, 0);
    let fri_params = FriParameters {
        log_blowup: 1,
        log_final_poly_len: 0,
        max_log_arity: 1,
        num_queries,
        commit_proof_of_work_bits: 0,
        query_proof_of_work_bits: 8,
        mmcs: ChalMmcs::new(mmcs.clone()),
    };
    let pcs = Pcs {
        mmcs,
        fri_params,
        _phantom: PhantomData,
    };
    Config::new(pcs, Challenger::from_hasher(vec![], Keccak256Hash {}))
}

fn from_p3(v: Mersenne31) -> Val {
    Val::from_u32(v.as_canonical_u32())
}

fn to_p3(v: &Val) -> Mersenne31 {
    Mersenne31::from_u32(v.as_canonical_u32())
}

type ByteHash = SerializingHasher<Keccak256Hash>;
type BytePair = CompressionFunctionFromHasher<Keccak256Hash, 2, 32>;
type ByteMmcs = MerkleTreeMmcs<Mersenne31, u8, ByteHash, BytePair, 2, 32>;
type ByteChalMmcs = ExtensionMmcs<Mersenne31, Ext3, ByteMmcs>;
type BytePcs = CirclePcs<Mersenne31, ByteMmcs, ByteChalMmcs>;
type ByteConfig = StarkConfig<BytePcs, Ext3, Challenger>;

/// The configuration that the library's own systems are proved with: as [`config`], over a
/// Keccak tree.
fn system_config() -> ByteConfig {
    let mmcs = ByteMmcs::new(
        SerializingHasher::new(Keccak256Hash {}),
        CompressionFunctionFromHasher::new(Keccak256Hash {}),
        0,
    );
    let fri_params = FriParameters {
        log_blowup: 1,
        log_final_poly_len: 0,
        max_log_arity: 1,
        num_queries: 8,
        commit_proof_of_work_bits: 0,
        query_proof_of_work_bits: 8,
        mmcs: ByteChalMmcs::new(mmcs.clone()),
    };
    let pcs = BytePcs {
        mmcs,
        fri_params,
        _phantom: PhantomData,
    };
    ByteConfig::new(pcs, Challenger::from_hasher(vec![], Keccak256Hash {}))
}

/// Proves a system on a trace, padded with its last row.
fn prover<A: System>(air: &A, m: &RowMajorMatrix, pv: &[Val]) -> Result<Vec<u8>, String> {
    let mut values: Vec<Mersenne31> = m.values.iter().map(to_p3).collect();
    let rows = values.len() / m.width;
    let last = values[values.len() - m.width..].to_vec();
    for _ in rows..rows.next_power_of_two().max(4) {
        values.extend_from_slice(&last);
    }
    let trace = p3_matrix::dense::RowMajorMatrix::new(values, m.width);
    let pv: Vec<Mersenne31> = pv.iter().map(to_p3).collect();
    let proof = prove(&system_config(), &Circuit(air), trace, &pv);
    postcard::to_allocvec(&proof).map_err(|e| e.to_string())
}

fn accepts<A: System>(air: &A, pv: &[Val], bytes: &[u8]) -> bool {
    let pv: Vec<Mersenne31> = pv.iter().map(to_p3).collect();
    match postcard::from_bytes::<Proof<ByteConfig>>(bytes) {
        Ok(p) => verify(&system_config(), &Circuit(air), &p, &pv).is_ok(),
        Err(_) => false,
    }
}

#[test]
fn m4a_path_quot_width3_depth1() {
    let row = [Val::from_u32(1), Val::from_u32(2), Val::from_u32(3)];
    let leaf = hash_val_leaf_keccak(&row);
    let sibling = [9u8; 32];
    let root = keccak256_compress(leaf, sibling);
    let proof =
        generate_fri_mmcs_batched_path_proof(&row, &[sibling], 0, &root, &prover).expect("prove");
    assert!(verify_fri_mmcs_batched_path_proof(
        &row,
        &[sibling],
        0,
        &root,
        &proof,
        &accepts
    ));

    let poseidon_sib = pack_digest(&[Val::from_u32(9); 8]);
    let poseidon_root = compress_digests(hash_val_leaf(&row), poseidon_sib);
    let nested =
        generate_fri_mmcs_path_proof(&row, &[poseidon_sib], 0, &poseidon_root).expect("record");
    let nested_bytes: usize = nested.fold_stark.len()
        + nested.leaf_keccak.stark.len()
        + nested
            .compress_starks
            .iter()
            .map(|p| p.stark.len())
            .sum::<usize>();
    assert!(nested_bytes < proof.path_stark.len());
}

#[test]
fn m4a_path_chal_width6_depth1() {
    let row: Vec<Val> = (0..6).map(|i| Val::from_u32(i + 10)).collect();
    let leaf = hash_val_leaf_keccak(&row);
    let sibling = [3u8; 32];
    let root = keccak256_compress(sibling, leaf);
    let proof =
        generate_fri_mmcs_batched_path_proof(&row, &[sibling], 1, &root, &prover).expect("prove");
    assert!(verify_fri_mmcs_batched_path_proof(
        &row,
        &[sibling],
        1,
        &root,
        &proof,
        &accepts
    ));
}

#[test]
fn m4a_path_quot_width3_depth2() {
    let row = [Val::from_u32(1), Val::from_u32(2), Val::from_u32(3)];
    let leaf = hash_val_leaf_keccak(&row);
    let s0 = [9u8; 32];
    let s1 = [7u8; 32];
    let d0 = keccak256_compress(leaf, s0);
    let root = keccak256_compress(s1, d0);
    let proof =
        generate_fri_mmcs_batched_path_proof(&row, &[s0, s1], 2, &root, &prover).expect("prove");
    assert!(verify_fri_mmcs_batched_path_proof(
        &row,
        &[s0, s1],
        2,
        &root,
        &proof,
        &accepts
    ));
}

#[test]
fn m4a_path_concat_width48_depth1() {
    let row: Vec<Val> = (0..48).map(|i| Val::from_u32(i * 17 + 3)).collect();
    assert_eq!(val_row_to_bytes(&row).len(), 192);
    assert_eq!(num_permutations(192), 2);
    let leaf = hash_val_leaf_keccak(&row);
    let sibling = [11u8; 32];
    let root = keccak256_compress(leaf, sibling);
    let proof =
        generate_fri_mmcs_batched_path_proof(&row, &[sibling], 0, &root, &prover).expect("prove");
    assert!(verify_fri_mmcs_batched_path_proof(
        &row,
        &[sibling],
        0,
        &root,
        &proof,
        &accepts
    ));
}

fn stmt_w3(index: usize, sibling: [u8; 32], seed: u32) -> MmcsPathStatement {
    let row = vec![
        Val::from_u32(seed),
        Val::from_u32(seed + 1),
        Val::from_u32(seed + 2),
    ];
    let leaf = hash_val_leaf_keccak(&row);
    let root = if index % 2 == 0 {
        keccak256_compress(leaf, sibling)
    } else {
        keccak256_compress(sibling, leaf)
    };
    MmcsPathStatement {
        row,
        siblings: vec![sibling],
        index,
        root,
    }
}

fn separate_bytes(stmts: &[MmcsPathStatement]) -> usize {
    stmts
        .iter()
        .map(|s| {
            generate_fri_mmcs_batched_path_proof(&s.row, &s.siblings, s.index, &s.root, &prover)
                .expect("prove")
                .path_stark
                .len()
        })
        .sum()
}

#[test]
fn m4b_group_two_paths_width3_depth1() {
    let stmts = vec![stmt_w3(0, [9u8; 32], 1), stmt_w3(1, [3u8; 32], 10)];
    let proof = generate_keccak_group_fold_proof(&stmts, &prover).expect("prove");
    assert!(verify_keccak_group_fold_proof(&stmts, &proof, &accepts));
    assert_eq!(proof.path_count, 2);
    assert_eq!(proof.depth, 1);
    assert_eq!(proof.leaf_width, 3);
    assert!(proof.group_stark.len() < separate_bytes(&stmts));
}

#[test]
fn m4b_group_four_paths_width3_depth1() {
    let stmts: Vec<MmcsPathStatement> = (0..4usize)
        .map(|i| stmt_w3(i % 2, [i as u8 + 5; 32], 20 + i as u32))
        .collect();
    let proof = generate_keccak_group_fold_proof(&stmts, &prover).expect("prove");
    assert!(verify_keccak_group_fold_proof(&stmts, &proof, &accepts));
    assert!(proof.group_stark.len() < separate_bytes(&stmts));
}

#[test]
fn m4b_group_two_concat_width48_depth1() {
    let stmts: Vec<MmcsPathStatement> = (0..2usize)
        .map(|p| {
            let row: Vec<Val> = (0..48)
                .map(|i| Val::from_u32((p as u32 + 1) * 100 + i * 17 + 3))
                .collect();
            assert_eq!(val_row_to_bytes(&row).len(), 192);
            let leaf = hash_val_leaf_keccak(&row);
            let sibling = [p as u8 + 11; 32];
            let root = if p % 2 == 0 {
                keccak256_compress(leaf, sibling)
            } else {
                keccak256_compress(sibling, leaf)
            };
            MmcsPathStatement {
                row,
                siblings: vec![sibling],
                index: p,
                root,
            }
        })
        .collect();
    let proof = generate_keccak_group_fold_proof(&stmts, &prover).expect("prove");
    assert!(verify_keccak_group_fold_proof(&stmts, &proof, &accepts));
    assert_eq!(proof.path_count, 2);
    assert_eq!(proof.leaf_width, 48);
}

#[test]
fn merkle_fold_stark_against_synthetic_keccak_path() {
    let lde_row: Vec<Val> = (0..AGG_WIDTH).map(|i| Val::from_u32(i as u32 + 1)).collect();
    let leaf = hash_lde_leaf(&lde_row);
    let siblings = [[9u8; 32]; MERKLE_FOLD_DEPTH];
    let root = merkle_root_from_path_keccak(leaf, &siblings, 0);
    let path =
        generate_keccak_merkle_path_proof(&lde_row, &siblings, 0, &root, &prover, &prover)
            .expect("prove");
    assert!(verify_keccak_merkle_path_proof(
        &lde_row, &siblings, 0, &root, &path, &accepts, &accepts
    ));
}

fn random_challenge(rng: &mut rand::rngs::StdRng) -> Challenge {
    Challenge::new([
        Val::from_u32(rng.gen()),
        Val::from_u32(rng.gen()),
        Val::from_u32(rng.gen()),
    ])
}

#[test]
fn fri_fold_stark_roundtrip() {
    let mut rng = rand::rngs::StdRng::seed_from_u64(11);
    let beta = random_challenge(&mut rng);
    let v0 = random_challenge(&mut rng);
    let v1 = random_challenge(&mut rng);
    let proof = generate_fri_fold_proof(1, 2, beta, v0, v1, &prover).expect("prove");
    assert!(verify_fri_fold_proof(&proof, &accepts));
    let mut other = proof.clone();
    other.out_limbs = challenge_to_limbs(v0);
    assert!(!verify_fri_fold_proof(&other, &accepts));
}

#[test]
fn fri_fold_group_y_roundtrip() {
    let mut rng = rand::rngs::StdRng::seed_from_u64(21);
    let mut steps = Vec::new();
    for i in 0..3usize {
        let log_h = 2usize;
        let (a, b, c) = (
            random_challenge(&mut rng),
            random_challenge(&mut rng),
            random_challenge(&mut rng),
        );
        steps.push(fri_fold_step_limbs_y(i % (1 << log_h), log_h, a, b, c).expect("limbs"));
    }
    let proof =
        generate_fri_fold_group_proof(FRI_FOLD_KIND_Y, &steps, None, &prover).expect("prove");
    assert!(verify_fri_fold_group_proof(&steps, &proof, &accepts));
    assert!(!verify_fri_fold_group_proof(
        &steps,
        &FriFoldGroupProof {
            kind: FRI_FOLD_KIND_X,
            ..proof.clone()
        },
        &accepts
    ));
}

#[test]
fn fri_fold_group_x_roundtrip() {
    let mut rng = rand::rngs::StdRng::seed_from_u64(22);
    let log_h = 3u32;
    let mut steps = Vec::new();
    for i in 0..4usize {
        let (a, b, c) = (
            random_challenge(&mut rng),
            random_challenge(&mut rng),
            random_challenge(&mut rng),
        );
        steps.push(
            fri_fold_step_limbs_x(i % (1 << log_h), log_h as usize, a, b, c).expect("limbs"),
        );
    }
    let proof = generate_fri_fold_group_proof(FRI_FOLD_KIND_X, &steps, Some(log_h), &prover)
        .expect("prove");
    assert_eq!(proof.log_folded_height, log_h);
    assert!(verify_fri_fold_group_proof(&steps, &proof, &accepts));
}

#[test]
fn fri_fold_group_x_mixed_height_roundtrip() {
    let mut rng = rand::rngs::StdRng::seed_from_u64(23);
    let mut steps = Vec::new();
    for log_h in [2usize, 3, 4] {
        for i in 0..2usize {
            let (a, b, c) = (
                random_challenge(&mut rng),
                random_challenge(&mut rng),
                random_challenge(&mut rng),
            );
            steps.push(fri_fold_step_limbs_x(i % (1 << log_h), log_h, a, b, c).expect("limbs"));
        }
    }
    let proof =
        generate_fri_fold_group_proof(FRI_FOLD_KIND_X, &steps, None, &prover).expect("prove");
    assert_eq!(proof.log_folded_height, u32::MAX);
    assert!(verify_fri_fold_group_proof(&steps, &proof, &accepts));
}

#[test]
fn fri_fold_group_yx_roundtrip() {
    let mut rng = rand::rngs::StdRng::seed_from_u64(24);
    let mut steps = Vec::new();
    for i in 0..2usize {
        let log_h = 2usize;
        let (a, b, c) = (
            random_challenge(&mut rng),
            random_challenge(&mut rng),
            random_challenge(&mut rng),
        );
        steps.push(fri_fold_step_limbs_y(i % (1 << log_h), log_h, a, b, c).expect("y"));
    }
    for log_h in [2usize, 3] {
        let (a, b, c) = (
            random_challenge(&mut rng),
            random_challenge(&mut rng),
            random_challenge(&mut rng),
        );
        steps.push(fri_fold_step_limbs_x(0, log_h, a, b, c).expect("x"));
    }
    let proof =
        generate_fri_fold_group_proof(FRI_FOLD_KIND_YX, &steps, None, &prover).expect("prove");
    assert_eq!(proof.kind, FRI_FOLD_KIND_YX);
    assert!(verify_fri_fold_group_proof(&steps, &proof, &accepts));
    assert!(!verify_fri_fold_group_proof(
        &steps,
        &FriFoldGroupProof {
            kind: FRI_FOLD_KIND_Y,
            ..proof.clone()
        },
        &accepts
    ));
}

#[test]
fn deep_ro_stark_roundtrip() {
    let mut rng = rand::rngs::StdRng::seed_from_u64(21);
    let alpha = random_challenge(&mut rng);
    let zeta = random_challenge(&mut rng);
    let px = [Val::from_u32(1), Val::from_u32(2), Val::from_u32(4)];
    let pz = [
        Challenge::from_words(1, 0, 0),
        Challenge::from_words(0, 1, 0),
        Challenge::from_words(0, 0, 1),
    ];
    let proof = generate_deep_ro_proof(
        Val::from_u32(3),
        Val::from_u32(5),
        alpha,
        px,
        pz,
        Challenge::from_words(7, 8, 9),
        2,
        zeta,
        &prover,
    )
    .expect("prove");
    assert!(verify_deep_ro_proof(&proof, &accepts));
    assert_eq!(proof.v_n, point_v_n(Val::from_u32(3), 2));
}

#[test]
fn deep_ro_leaf_trace_stark_roundtrip_w21() {
    let mut rng = rand::rngs::StdRng::seed_from_u64(121);
    let width = 21usize;
    let alpha = random_challenge(&mut rng);
    let zeta = random_challenge(&mut rng);
    let zeta_next = random_challenge(&mut rng);
    let mut px = vec![Val::zero(); width];
    let mut pz_local = vec![Challenge::zero(); width];
    let mut pz_next = vec![Challenge::zero(); width];
    for i in 0..width {
        px[i] = Val::from_u32(rng.gen::<u32>() % 50);
        pz_local[i] = Challenge::from_base(Val::from_u32(rng.gen::<u32>() % 50));
        pz_next[i] = Challenge::from_base(Val::from_u32(rng.gen::<u32>() % 50));
    }
    let proof = generate_deep_ro_leaf_trace_proof(
        Val::from_u32(3),
        Val::from_u32(5),
        alpha,
        &px,
        &pz_local,
        &pz_next,
        Challenge::from_words(1, 2, 3),
        3,
        zeta,
        zeta_next,
        &prover,
    )
    .expect("prove");
    assert!(verify_deep_ro_leaf_trace_proof(&proof, &accepts));
}

/// The aggregation constraints: both children are accepted, and the hashes stay.
struct AggAir;

impl BaseAir<Mersenne31> for AggAir {
    fn width(&self) -> usize {
        AGG_WIDTH
    }
}

impl<AB: AirBuilder<F = Mersenne31>> Air<AB> for AggAir {
    fn eval(&self, builder: &mut AB) {
        let main = builder.main();
        let curr: Vec<AB::Var> = main.current_slice().to_vec();
        let next: Vec<AB::Var> = main.next_slice().to_vec();
        builder.assert_one(curr[AGG_LEFT_OK_COL]);
        builder.assert_one(curr[AGG_RIGHT_OK_COL]);
        for i in 0..64 {
            builder.when_transition().assert_eq(next[i], curr[i]);
        }
    }
}

/// A system with two quotient chunks.
struct CubeAir;

const CUBE_WIDTH: usize = 5;

impl BaseAir<Mersenne31> for CubeAir {
    fn width(&self) -> usize {
        CUBE_WIDTH
    }
}

impl<AB: AirBuilder<F = Mersenne31>> Air<AB> for CubeAir {
    fn eval(&self, builder: &mut AB) {
        let main = builder.main();
        let curr: Vec<AB::Var> = main.current_slice().to_vec();
        let next: Vec<AB::Var> = main.next_slice().to_vec();
        for i in 0..CUBE_WIDTH - 1 {
            builder.assert_zero(curr[i] * curr[i] * curr[i] - curr[i]);
        }
        let last = CUBE_WIDTH - 1;
        builder.when_transition().assert_eq(next[last], curr[last] + Mersenne31::ONE);
    }
}

fn agg_matrix(left: [u8; 32], right: [u8; 32]) -> p3_matrix::dense::RowMajorMatrix<Mersenne31> {
    let mut row: Vec<Mersenne31> = Vec::new();
    for b in left.iter().chain(right.iter()) {
        row.push(Mersenne31::from_u32(*b as u32));
    }
    row.push(Mersenne31::ONE);
    row.push(Mersenne31::ONE);
    p3_matrix::dense::RowMajorMatrix::new(row.repeat(4), AGG_WIDTH)
}

fn agg_proof(left: u8, right: u8, queries: usize) -> Proof<Config> {
    let config = config(queries);
    let proof = prove(&config, &AggAir, agg_matrix([left; 32], [right; 32]), &[]);
    assert!(verify(&config, &AggAir, &proof, &[]).is_ok());
    proof
}

fn cube_proof(queries: usize) -> Proof<Config> {
    let config = config(queries);
    let mut values = Vec::new();
    for i in 0..4u32 {
        for j in 0..CUBE_WIDTH as u32 - 1 {
            values.push(Mersenne31::from_u32((i + j) % 2));
        }
        values.push(Mersenne31::from_u32(10 + i));
    }
    let trace = p3_matrix::dense::RowMajorMatrix::new(values, CUBE_WIDTH);
    let proof = prove(&config, &CubeAir, trace, &[]);
    assert!(verify(&config, &CubeAir, &proof, &[]).is_ok());
    proof
}

type Words = [u32; 3];
type Digests = Vec<[u8; 32]>;
type InputWire = (Vec<(Vec<Vec<u32>>, Digests)>, Vec<Words>, Digests);
type QueryWire = (InputWire, Vec<(u8, Vec<Words>, Digests)>);
type FriWire = (Vec<Digests>, Vec<u32>, Vec<QueryWire>, Words, u32);
type PcsWire = (Digests, Vec<Words>, FriWire);

fn chal_of(w: &Words) -> Challenge {
    Challenge::from_words(w[0], w[1], w[2])
}

fn chals_of(w: &[Words]) -> Vec<Challenge> {
    w.iter().map(chal_of).collect()
}

fn words_of(e: &Ext3) -> Words {
    postcard::from_bytes(&postcard::to_allocvec(e).expect("encode")).expect("decode")
}

fn ext_of(c: &Challenge) -> Ext3 {
    Ext3::new([to_p3(&c.c0), to_p3(&c.c1), to_p3(&c.c2)])
}

fn exts_of(s: &[Challenge]) -> Vec<Ext3> {
    s.iter().map(ext_of).collect()
}

fn challenges_of(s: &[Ext3]) -> Vec<Challenge> {
    s.iter().map(|e| chal_of(&words_of(e))).collect()
}

/// The parts of a proof that the library reads.
fn view_of(proof: &Proof<Config>) -> StarkProofView {
    let wire: PcsWire =
        postcard::from_bytes(&postcard::to_allocvec(&proof.opening_proof).expect("encode"))
            .expect("decode");
    let fri = &wire.2;
    let query_proofs = fri
        .2
        .iter()
        .map(|q| QueryProofView {
            input_proof: CircleInputProofView {
                input_openings: q
                    .0
                     .0
                    .iter()
                    .map(|b| BatchOpeningView {
                        opened_values: b
                            .0
                            .iter()
                            .map(|r| r.iter().map(|x| Val::from_u32(*x)).collect())
                            .collect(),
                        opening_proof: b.1.clone(),
                    })
                    .collect(),
                first_layer_siblings: chals_of(&q.0 .1),
                first_layer_proof: q.0 .2.clone(),
            },
            commit_phase_openings: q
                .1
                .iter()
                .map(|s| CommitPhaseStepView {
                    log_arity: s.0,
                    sibling_values: chals_of(&s.1),
                    opening_proof: s.2.clone(),
                })
                .collect(),
        })
        .collect();
    StarkProofView {
        degree_bits: proof.degree_bits,
        trace_commitment: proof.commitments.trace.roots().to_vec(),
        quotient_commitment: proof.commitments.quotient_chunks.roots().to_vec(),
        randomized: proof.commitments.random.is_some() || proof.opened_values.random.is_some(),
        preprocessed: proof.opened_values.preprocessed_local.is_some()
            || proof.opened_values.preprocessed_next.is_some(),
        trace_local: challenges_of(&proof.opened_values.trace_local),
        trace_next: proof.opened_values.trace_next.as_ref().map(|t| challenges_of(t)),
        quotient_chunks: proof
            .opened_values
            .quotient_chunks
            .iter()
            .map(|c| challenges_of(c))
            .collect(),
        opening_proof: CirclePcsProofView {
            first_layer_commitment: wire.0.clone(),
            lambdas: chals_of(&wire.1),
            fri_proof: FriProofView {
                commit_phase_commits: fri.0.clone(),
                commit_pow_witnesses: fri.1.iter().map(|x| Val::from_u32(*x)).collect(),
                query_proofs,
                final_poly: chal_of(&fri.3),
                pow_witness: Val::from_u32(fri.4),
            },
        },
    }
}

fn params() -> FriParamsView {
    FriParamsView {
        log_blowup: 1,
        max_log_arity: 1,
        commit_proof_of_work_bits: 0,
        query_proof_of_work_bits: 8,
    }
}

#[test]
fn replay_agg_fri_shape() {
    let view = view_of(&agg_proof(1, 2, 40));
    let chal = replay_agg_fri_challenges(&view, &params()).expect("replay");
    assert_eq!(chal.query_indices.len(), 40);
    assert_eq!(chal.betas.len(), 2);
    assert_eq!(chal.log_blowup, 1);
    assert_eq!(chal.fri_log_max_height, 3);
    assert_eq!(chal.extra_query_index_bits, 1);
}

#[test]
fn replay_agg_fri_shape_low_security() {
    let view = view_of(&agg_proof(1, 2, 8));
    assert_eq!(fri_queries_from_proof(&view), Ok(8));
    let chal = replay_agg_fri_challenges(&view, &params()).expect("replay");
    assert_eq!(chal.query_indices.len(), 8);
}

#[test]
fn replay_refuses_other_work() {
    let mut view = view_of(&agg_proof(1, 2, 8));
    view.opening_proof.fri_proof.pow_witness =
        view.opening_proof.fri_proof.pow_witness.plus(&Val::one());
    assert_eq!(
        replay_agg_fri_challenges(&view, &params()).map(|c| c.betas.len()),
        Err(ReplayError::QueryPow)
    );
    let mut view = view_of(&agg_proof(1, 2, 8));
    view.trace_next = None;
    assert_eq!(
        replay_agg_fri_challenges(&view, &params()).map(|c| c.betas.len()),
        Err(ReplayError::MissingTraceNext)
    );
    assert_eq!(
        replay_fri_challenges(&view_of(&agg_proof(1, 2, 8)), 65, &params()).map(|c| c.betas.len()),
        Err(ReplayError::TraceWidth)
    );
}

#[test]
fn fri_fold_bundle_query0_matches_final_poly() {
    let view = view_of(&agg_proof(7, 9, 40));
    let chal = replay_agg_fri_challenges(&view, &params()).expect("replay");
    let bundle = fri_fold_bundle_from_agg_proof(&view, &params(), &prover).expect("bundle");
    assert_eq!(bundle.fold_ys.len(), 2);
    assert_eq!(bundle.fold_xs.len(), chal.betas.len());
    for y in &bundle.fold_ys {
        assert!(verify_fri_fold_y_proof(y, &accepts));
        assert_eq!(y.beta_limbs, challenge_to_limbs(chal.bivariate_beta));
    }
    for (step, beta) in bundle.fold_xs.iter().zip(&chal.betas) {
        assert!(verify_fri_fold_proof(step, &accepts));
        assert_eq!(step.beta_limbs, challenge_to_limbs(*beta));
    }
    let last_out = limbs_to_challenge(bundle.fold_xs.last().expect("round").out_limbs);
    assert_eq!(last_out, decode_pcs_view(&view).fri_proof.final_poly);
}

#[test]
fn deep_ro_quot_query0_binds_fold_y() {
    let view = view_of(&agg_proof(31, 33, 40));
    let deep = deep_ro_quot_query0_from_agg_proof(&view, &params(), &prover).expect("deep");
    assert!(verify_deep_ro_proof(&deep, &accepts));
    let bundle = fri_fold_bundle_from_agg_proof(&view, &params(), &prover).expect("bundle");
    assert_eq!(
        bind_deep_ro_to_fold_y(&view, &params(), &deep, &bundle.fold_ys, &accepts),
        Ok(())
    );
    let other = view_of(&agg_proof(32, 33, 40));
    assert!(bind_deep_ro_to_fold_y(&other, &params(), &deep, &bundle.fold_ys, &accepts).is_err());
}

#[test]
fn reconstruct_ro_query0_reaches_final_poly() {
    let view = view_of(&agg_proof(4, 6, 40));
    let chal = replay_agg_fri_challenges(&view, &params()).expect("replay");
    let (ros, fold_ys) =
        reconstruct_agg_query_ro(&view, &chal, &view.opening_proof, 0).expect("openings");
    assert_eq!(ros.len(), 2);
    assert_eq!(fold_ys.len(), 2);
    assert_eq!(ros[0].0, 3);
    assert_eq!(ros[1].0, 2);
}

#[test]
fn born_same_height_ro_matches_expected_fold_input() {
    let view = view_of(&cube_proof(40));
    assert_eq!(view.quotient_chunks.len(), 2);
    let chal = replay_fri_challenges(&view, CUBE_WIDTH, &params()).expect("replay");
    let mut mismatches = 0usize;
    for q in 0..chal.query_indices.len() {
        let (ros, _) = reconstruct_query_ro(&view, &chal, &view.opening_proof, q, CUBE_WIDTH)
            .expect("openings");
        let qp = &view.opening_proof.fri_proof.query_proofs[q];
        let sibling = qp.commit_phase_openings[0].sibling_values[0];
        let index = chal.query_indices[q] >> chal.extra_query_index_bits;
        let final_poly = view.opening_proof.fri_proof.final_poly;
        let want = if index % 2 == 0 {
            solve_v0_for_fold(index >> 1, 1, chal.betas[0], sibling, final_poly)
        } else {
            solve_v1_for_fold(index >> 1, 1, chal.betas[0], sibling, final_poly)
        };
        if ros[0].1 != want {
            mismatches += 1;
        }
    }
    assert_eq!(mismatches, 0);
}

fn val_check(
    roots: &Digests,
    dims: &Vec<Dimensions>,
    index: usize,
    rows: &Vec<Vec<Val>>,
    siblings: &Digests,
) -> bool {
    let mmcs = ValMmcs::new(TreeHash, TreeHash, 0);
    let dims: Vec<p3_matrix::Dimensions> = dims
        .iter()
        .map(|d| p3_matrix::Dimensions {
            width: d.width,
            height: d.height,
        })
        .collect();
    let rows: Vec<Vec<Mersenne31>> = rows.iter().map(|r| r.iter().map(to_p3).collect()).collect();
    mmcs.verify_batch(
        &p3_symmetric::MerkleCap::new(roots.clone()),
        &dims,
        index,
        BatchOpeningRef::new(&rows, siblings),
    )
    .is_ok()
}

fn chal_check(
    roots: &Digests,
    dims: &Vec<Dimensions>,
    index: usize,
    rows: &Vec<Vec<Challenge>>,
    siblings: &Digests,
) -> bool {
    let mmcs = ChalMmcs::new(ValMmcs::new(TreeHash, TreeHash, 0));
    let dims: Vec<p3_matrix::Dimensions> = dims
        .iter()
        .map(|d| p3_matrix::Dimensions {
            width: d.width,
            height: d.height,
        })
        .collect();
    let rows: Vec<Vec<Ext3>> = rows.iter().map(|r| exts_of(r)).collect();
    mmcs.verify_batch(
        &p3_symmetric::MerkleCap::new(roots.clone()),
        &dims,
        index,
        BatchOpeningRef::new(&rows, siblings),
    )
    .is_ok()
}

#[test]
fn honest_aggregation_fri_openings_pass() {
    let view = view_of(&agg_proof(17, 19, 40));
    assert_eq!(
        verify_agg_fri_openings(&view, &params(), &val_check, &chal_check),
        Ok(())
    );
}

#[test]
fn tampered_trace_opening_fails_val_mmcs() {
    let mut view = view_of(&agg_proof(21, 23, 40));
    let cell = &mut view.opening_proof.fri_proof.query_proofs[0].input_proof.input_openings[0]
        .opened_values[0][0];
    *cell = cell.plus(&Val::one());
    assert_eq!(
        verify_agg_fri_openings(&view, &params(), &val_check, &chal_check),
        Err(OpeningsError::Trace(0))
    );
}

#[test]
fn fri_mmcs_query0_val_and_chal() {
    let view = view_of(&agg_proof(61, 63, 40));
    let chal = replay_agg_fri_challenges(&view, &params()).expect("replay");
    let pcs = &view.opening_proof;
    let log_global = pcs.fri_proof.commit_phase_commits.len() + chal.log_blowup + 1;
    let q = chal.query_indices[0];
    let t_idx = q >> (log_global - (view.degree_bits + chal.log_blowup));
    let q_idx = q >> (log_global - (view.degree_bits + 1 + chal.log_blowup));
    let input = &pcs.fri_proof.query_proofs[0].input_proof;
    let trace_root = view.trace_commitment[0];
    let quot_root = view.quotient_commitment[0];
    for (opening, index, root) in [
        (&input.input_openings[0], t_idx, trace_root),
        (&input.input_openings[1], q_idx, quot_root),
    ] {
        let row = &opening.opened_values[0];
        let path = generate_fri_mmcs_path_proof(row, &opening.opening_proof, index, &root)
            .expect("path");
        assert!(verify_fri_mmcs_path_proof(
            row,
            &opening.opening_proof,
            index,
            &root,
            &path
        ));
    }

    let (reduced, fold_ys) = reconstruct_agg_query_ro(&view, &chal, pcs, 0).expect("openings");
    let fl_opened: Vec<Vec<Val>> = fold_ys.iter().map(|w| flatten_pair(&w.v0, &w.v1)).collect();
    let fl_dims: Vec<Dimensions> = fold_ys
        .iter()
        .map(|w| Dimensions {
            width: CHAL_LEAF_WIDTH,
            height: 1 << w.log_folded_height,
        })
        .collect();
    let fl_root = pcs.first_layer_commitment[0];
    let fl = generate_chal_batch_path(
        &fl_opened,
        &fl_dims,
        q >> 1,
        &input.first_layer_proof,
        &fl_root,
    )
    .expect("first layer");
    assert!(verify_chal_batch_path_replay(
        &fl_opened,
        &fl_dims,
        q >> 1,
        &fl_root,
        &fl
    ));

    let openings = &pcs.fri_proof.query_proofs[0].commit_phase_openings;
    let mut index = q >> chal.extra_query_index_bits;
    assert_eq!(reduced[0].0, openings.len() + chal.log_blowup);
    let folded = reduced[0].1;
    let sibling = openings[0].sibling_values[0];
    let row = if index % 2 == 0 {
        flatten_pair(&folded, &sibling)
    } else {
        flatten_pair(&sibling, &folded)
    };
    index >>= 1;
    let root = pcs.fri_proof.commit_phase_commits[0][0];
    let path = generate_fri_mmcs_path_proof(&row, &openings[0].opening_proof, index, &root)
        .expect("round");
    assert!(verify_fri_mmcs_path_proof(
        &row,
        &openings[0].opening_proof,
        index,
        &root,
        &path
    ));
}

fn no_group(_s: &[MmcsPathStatement], _p: &PoseidonGroupFoldProof) -> bool {
    false
}

#[test]
fn recorded_bundles_bind_and_survive_stripping() {
    for (view, width) in [
        (view_of(&agg_proof(3, 5, 8)), AGG_WIDTH),
        (view_of(&cube_proof(8)), CUBE_WIDTH),
    ] {
        let mut bundle = fri_mmcs_bundle_from_proof(&view, width, &params()).expect("bundle");
        assert_eq!(bundle.val.len(), 8);
        assert_eq!(bundle.chal.len(), 8);
        assert_eq!(
            bind_fri_mmcs_bundle_to_proof_width(&view, &bundle, width, &params()),
            Ok(())
        );
        let groups = apply_leaf_mmcs_m4c_folds(&mut bundle);
        assert_eq!(groups, LeafMmcsFoldGroups::default());
        assert_eq!(
            bind_leaf_mmcs_with_groups(
                &view, &bundle, &groups, width, &params(), &accepts, &no_group
            ),
            Ok(())
        );
        let stmts = collect_leaf_mmcs_group_statements(&view, width, &bundle, &params())
            .expect("statements");
        assert_eq!(stmts.val_trace.len(), 8);
        assert_eq!(stmts.val_quot.is_some(), view.quotient_chunks.len() == 1);
        assert!(stmts.chal_commit.windows(2).all(|w| w[0].0 < w[1].0));
        let rounds = view.opening_proof.fri_proof.query_proofs[0].commit_phase_openings.len();
        let listed: usize = stmts.chal_commit.iter().map(|e| e.1.len()).sum();
        assert_eq!(listed, 8 * rounds);
        for (depth, list) in &stmts.chal_commit {
            assert!(!list.is_empty());
            assert!(list.iter().all(|s| s.siblings.len() == *depth));
        }

        let full = bundle.clone();
        for q in bundle.val.iter_mut() {
            q.trace_siblings.clear();
            q.quot_siblings.clear();
        }
        for q in bundle.chal.iter_mut() {
            q.first_layer.siblings.clear();
            for s in q.commit_siblings.iter_mut() {
                s.clear();
            }
        }
        assert_eq!(
            hydrate_val_mmcs_siblings_from_proof(&view, &mut bundle.val, width, &params()),
            Ok(())
        );
        assert_eq!(
            hydrate_chal_mmcs_siblings_from_proof(&view, &mut bundle.chal),
            Ok(())
        );
        assert_eq!(bundle.val, full.val);
        assert_eq!(bundle.chal, full.chal);
    }
}

#[test]
fn a_failed_fill_in_stops_at_its_record() {
    let view = view_of(&agg_proof(3, 5, 8));
    let full = fri_mmcs_bundle_from_agg_proof(&view, &params()).expect("bundle");
    let mut empty = full.clone();
    for q in empty.val.iter_mut() {
        q.trace_siblings.clear();
        q.quot_siblings.clear();
    }
    for q in empty.chal.iter_mut() {
        q.first_layer.siblings.clear();
        for s in q.commit_siblings.iter_mut() {
            s.clear();
        }
    }

    let mut bundle = empty.clone();
    bundle.val[2].trace_index ^= 1;
    let left = bundle.val[2].trace_index;
    assert_eq!(
        hydrate_val_mmcs_siblings_from_proof(&view, &mut bundle.val, AGG_WIDTH, &params()),
        Err(ValMmcsError::TraceIndex(2))
    );
    assert_eq!(bundle.val[..2], full.val[..2]);
    assert_eq!(bundle.val[2].trace_index, left);
    assert_eq!(bundle.val[2].trace_siblings, full.val[2].trace_siblings);
    assert_eq!(bundle.val[2].quot_siblings, full.val[2].quot_siblings);
    assert_eq!(bundle.val[3..], empty.val[3..]);

    let mut bundle = empty.clone();
    bundle.val[1].quot_siblings = vec![[7u8; 32]];
    assert_eq!(
        hydrate_val_mmcs_siblings_from_proof(&view, &mut bundle.val, AGG_WIDTH, &params()),
        Err(ValMmcsError::Siblings(1))
    );
    assert_eq!(bundle.val[0], full.val[0]);
    assert_eq!(bundle.val[1].trace_siblings, full.val[1].trace_siblings);
    assert_eq!(bundle.val[1].quot_siblings, vec![[7u8; 32]]);
    assert_eq!(bundle.val[2..], empty.val[2..]);

    let mut bundle = empty.clone();
    bundle.chal[2].commit_siblings.pop();
    assert_eq!(
        hydrate_chal_mmcs_siblings_from_proof(&view, &mut bundle.chal),
        Err(ChalMmcsError::PathCount(2))
    );
    assert_eq!(bundle.chal[..2], full.chal[..2]);
    assert_eq!(
        bundle.chal[2].first_layer.siblings,
        full.chal[2].first_layer.siblings
    );
    assert!(bundle.chal[2].commit_siblings.iter().all(|s| s.is_empty()));
    assert_eq!(bundle.chal[3..], empty.chal[3..]);

    let mut bundle = empty.clone();
    bundle.chal[0].first_layer.siblings = vec![[7u8; 32]];
    assert_eq!(
        hydrate_chal_mmcs_siblings_from_proof(&view, &mut bundle.chal),
        Err(ChalMmcsError::FirstLayerSiblings(0))
    );
    assert_eq!(bundle.chal[0].commit_siblings, empty.chal[0].commit_siblings);
    assert_eq!(bundle.chal[1..], empty.chal[1..]);
}

#[test]
fn tampered_bundle_does_not_bind() {
    let view = view_of(&agg_proof(3, 5, 8));
    let bundle = fri_mmcs_bundle_from_agg_proof(&view, &params()).expect("bundle");
    assert_eq!(
        bind_fri_mmcs_bundle_to_proof(&view, &bundle, &params()),
        Ok(())
    );
    let mut other = bundle.clone();
    other.val[2].trace_index ^= 1;
    assert_eq!(
        bind_fri_mmcs_bundle_to_proof(&view, &other, &params()),
        Err(MmcsError::Val(ValMmcsError::TraceIndex(2)))
    );
    let mut other = bundle.clone();
    other.val[1].trace_path.leaf_digest[0] ^= 1;
    assert_eq!(
        bind_fri_mmcs_bundle_to_proof(&view, &other, &params()),
        Err(MmcsError::Val(ValMmcsError::TraceCheck(1)))
    );
    let mut other = bundle.clone();
    other.val.pop();
    assert_eq!(
        bind_fri_mmcs_bundle_to_proof(&view, &other, &params()),
        Err(MmcsError::Val(ValMmcsError::Length(7)))
    );
}

/// Compares the folded constraints of a system with the quotient.
fn constraints_hold<A>(air: &A, proof: &StarkProofView, chal: &AggFriChallenges) -> bool
where
    A: for<'a> Air<p3_uni_stark::VerifierConstraintFolder<'a, Config>>,
{
    let config = config(8);
    let domain = <Pcs as PcsTrait<Ext3, Challenger>>::natural_domain_for_degree(
        config.pcs(),
        1 << proof.degree_bits,
    );
    let chunks = proof.quotient_chunks.len();
    let domains = domain
        .create_disjoint_domain((1 << proof.degree_bits) * chunks)
        .split_domains(chunks);
    let opened: Vec<Vec<Ext3>> = proof.quotient_chunks.iter().map(|c| exts_of(c)).collect();
    let zeta = ext_of(&chal.zeta);
    let quotient = recompose_quotient_from_chunks::<Config>(&domains, &opened, zeta);
    let next = match &proof.trace_next {
        Some(t) => exts_of(t),
        None => return false,
    };
    verify_constraints::<Config, A, ()>(
        air,
        &exts_of(&proof.trace_local),
        &next,
        None,
        None,
        &[],
        &[],
        domain,
        zeta,
        ext_of(&chal.constraint_alpha),
        quotient,
    )
    .is_ok()
}

#[test]
fn honest_aggregation_ood_passes() {
    let view = view_of(&agg_proof(11, 13, 40));
    let check = |p: &StarkProofView, c: &AggFriChallenges| constraints_hold(&AggAir, p, c);
    assert_eq!(verify_agg_ood(&view, 0, &params(), &check), Ok(()));
    assert_eq!(
        verify_agg_ood(&view, 1, &params(), &check),
        Err(OodError::ChunkCount(1))
    );
    let mut other = view.clone();
    other.quotient_chunks[0].pop();
    assert!(verify_agg_ood(&other, 0, &params(), &check).is_err());
}

#[test]
fn honest_unitary_leaf_ood_passes() {
    let view = view_of(&cube_proof(40));
    let check = |p: &StarkProofView, c: &AggFriChallenges| constraints_hold(&CubeAir, p, c);
    assert_eq!(
        verify_leaf_ood(&view, CUBE_WIDTH, 1, &params(), &check),
        Ok(())
    );
    let fails = |_p: &StarkProofView, _c: &AggFriChallenges| false;
    assert_eq!(
        verify_leaf_ood(&view, CUBE_WIDTH, 1, &params(), &fails),
        Err(OodError::Mismatch)
    );
}

#[test]
fn path_matches_val_mmcs_open_batch() {
    let matrix = agg_matrix([1u8; 32], [2u8; 32]);
    let config = config(40);
    let pcs = config.pcs();
    let domain =
        <Pcs as PcsTrait<Ext3, Challenger>>::natural_domain_for_degree(pcs, matrix.height());
    let (comm, data) = <Pcs as PcsTrait<Ext3, Challenger>>::commit(pcs, vec![(domain, matrix)]);
    let index = 0usize;
    let batch = pcs.mmcs.open_batch(index, &data);
    let row: Vec<Val> = batch.opened_values[0].iter().map(|v| from_p3(*v)).collect();
    let root = comm.roots()[0];
    assert!(verify_agg_merkle_path(&row, &batch.opening_proof, index, &root));
    assert_eq!(batch.opening_proof.len(), AGG_LDE_MERKLE_DEPTH);
    assert!(!verify_agg_merkle_path(&row, &batch.opening_proof, index, &[0u8; 32]));
}

/// A surrounding system that proves nothing of its own and accepts what it made.
struct Accepting;

impl LeafSystem for Accepting {
    type Ood = u32;

    fn outcomes(&self, width: usize) -> Option<usize> {
        if width == CUBE_WIDTH {
            Some(4)
        } else {
            None
        }
    }
    fn prove_ood(&self, proof: &StarkProofView, _kind: LeafKind, outcomes: usize) -> Option<u32> {
        if proof.trace_next.is_some() {
            Some(outcomes as u32)
        } else {
            None
        }
    }
    fn ood_ok(&self, ood: &u32) -> bool {
        *ood < 100
    }
    fn ood_bound(&self, _proof: &StarkProofView, _ood: &u32, _kind: LeafKind) -> bool {
        true
    }
    fn prove_folds(&self, _proof: &StarkProofView, _width: usize) -> Option<AggFriFoldBundle> {
        let c = Challenge::from_words(1, 2, 3);
        let step = generate_fri_fold_proof(0, 2, c, c, c, &prover).ok()?;
        Some(AggFriFoldBundle {
            fold_ys: vec![],
            fold_xs: vec![step],
        })
    }
    fn folds_bound(
        &self,
        _proof: &StarkProofView,
        _ys: &Vec<FriFoldStepProof>,
        xs: &Vec<FriFoldStepProof>,
        _width: usize,
    ) -> bool {
        xs.len() == 1
    }
    fn prove_deep(&self, _proof: &StarkProofView, _width: usize) -> Option<LeafDeepBundle> {
        None
    }
    fn deep_bound(
        &self,
        _proof: &StarkProofView,
        _ros: &Vec<DeepRoStepProof>,
        _traces: &Vec<DeepRoLeafTraceStepProof>,
        _ys: &Vec<FriFoldStepProof>,
        _width: usize,
    ) -> bool {
        true
    }
    fn decode(&self, payload: &[u8]) -> Option<StarkProofView> {
        postcard::from_bytes::<Proof<Config>>(payload).ok().map(|p| view_of(&p))
    }
}

fn rules() -> LeafRules {
    LeafRules {
        unitary_tag: 0,
        born_tag: 1,
        traj_marginal_tag: 2,
        shot_sampling_tag: 3,
        unitary_width: 21,
        proven_queries: 8,
        max_siblings: 20,
    }
}

fn framed(marker: &[u8], texts: usize, skip: usize, payload: &[u8]) -> Vec<u8> {
    let mut out = b"head".to_vec();
    out.extend_from_slice(marker);
    for _ in 0..texts {
        out.extend_from_slice(b"text\0");
    }
    out.extend(vec![7u8; skip]);
    out.extend_from_slice(&(payload.len() as u32).to_le_bytes());
    out.extend_from_slice(payload);
    out
}

fn leaf_markers() -> ChildMarkers {
    ChildMarkers {
        rec_agg: b"REC!".to_vec(),
        agg: b"AGG!".to_vec(),
        born: b"BORN".to_vec(),
        traj_marginal: b"MARG".to_vec(),
        traj_shot: b"SHOT".to_vec(),
    }
}

#[test]
fn leaf_certificate_roundtrip() {
    let ctx = LeafContext {
        system: Accepting,
        fold: accepts::<FriFoldAir>,
        deep: accepts::<DeepRoAir>,
        trace: accepts::<DeepRoLeafTraceAir>,
        keccak: accepts::<MmcsGroupPathAir>,
        poseidon: no_group,
        rules: rules(),
        params: params(),
    };
    let view = view_of(&cube_proof(8));
    let stmt = leaf_stmt_digest(LeafKind::Born, &view, &rules());
    let mut bytes = vec![1u8, 1u8];
    bytes.extend_from_slice(&view.trace_commitment[0]);
    let want: [u8; 32] = Sha3_256::digest(&bytes).into();
    assert_eq!(stmt, want);

    let cert = build_leaf_pcs_certificate(&view, LeafKind::Born, stmt, &ctx).expect("certificate");
    assert_eq!(cert.trace_width as usize, CUBE_WIDTH);
    assert_eq!(cert.ood, 4);
    assert_eq!(cert.merkle_fold, cert.fri_mmcs.val[0].trace_path);
    assert!(verify_leaf_pcs_certificate(&view, &cert, &ctx));
    for tamper in 0..6 {
        let mut other = cert.clone();
        match tamper {
            0 => other.stmt_digest[0] ^= 1,
            1 => other.degree_bits += 1,
            2 => other.trace_commitment[3] ^= 1,
            3 => other.ood = 100,
            4 => other.merkle_fold.depth += 1,
            _ => other.fri_mmcs.chal[1].commit_indices[0] ^= 1,
        }
        assert!(!verify_leaf_pcs_certificate(&view, &other, &ctx));
    }

    assert_eq!(
        build_leaf_pcs_certificate(&view, LeafKind::Born, [0u8; 32], &ctx).map(|c| c.ood),
        Err(LeafCertError::StmtDigest)
    );
    let unitary = leaf_stmt_digest(LeafKind::Unitary, &view, &rules());
    assert_eq!(
        build_leaf_pcs_certificate(&view, LeafKind::Unitary, unitary, &ctx).map(|c| c.ood),
        Err(LeafCertError::Width)
    );
    let agg = view_of(&agg_proof(1, 2, 8));
    let shot = leaf_stmt_digest(LeafKind::ShotSampling, &agg, &rules());
    assert_eq!(
        build_leaf_pcs_certificate(&agg, LeafKind::ShotSampling, shot, &ctx).map(|c| c.ood),
        Err(LeafCertError::DeepProve)
    );
}

#[test]
fn leaf_bundle_roundtrip() {
    let ctx = LeafContext {
        system: Accepting,
        fold: accepts::<FriFoldAir>,
        deep: accepts::<DeepRoAir>,
        trace: accepts::<DeepRoLeafTraceAir>,
        keccak: accepts::<MmcsGroupPathAir>,
        poseidon: no_group,
        rules: rules(),
        params: params(),
    };
    let payload = postcard::to_allocvec(&cube_proof(8)).expect("encode");
    let born = LeafFrames::Born(Some(framed(b"BORN", 2, 0, &payload)));
    let bundle = build_leaf_pcs_bundle_from_child(&born, &leaf_markers(), &ctx).expect("bundle");
    assert_eq!(bundle.certs.len(), 1);
    let want: [u8; 32] = Sha3_256::digest(bundle.certs[0].stmt_digest).into();
    assert_eq!(leaf_bundle_stmt_digest(&bundle), want);

    let marginal = framed(b"MARG", 3, 0, &payload);
    let mut list = 1u32.to_le_bytes().to_vec();
    list.extend_from_slice(&(marginal.len() as u32).to_le_bytes());
    list.extend_from_slice(&marginal);
    let trajectory = LeafFrames::Trajectory(Some(TrajectoryFrames {
        marginals: list.clone(),
        shot: framed(b"SHOT", 1, 20, &payload),
    }));
    let both =
        build_leaf_pcs_bundle_from_child(&trajectory, &leaf_markers(), &ctx).expect("bundle");
    assert_eq!(both.certs.len(), 2);
    assert_eq!(both.certs[0].kind, LeafKind::TrajMarginal);
    assert_eq!(both.certs[1].kind, LeafKind::ShotSampling);
    assert_eq!(
        verify_leaf_pcs_bundle(&trajectory, &leaf_markers(), &both, &ctx),
        Ok(())
    );

    assert_eq!(
        verify_leaf_pcs_bundle(&trajectory, &leaf_markers(), &bundle, &ctx),
        Err(LeafBundleError::Count(1, 2))
    );
    let swapped = LeafPcsBundle {
        certs: vec![both.certs[1].clone(), both.certs[0].clone()],
    };
    assert_eq!(
        verify_leaf_pcs_bundle(&trajectory, &leaf_markers(), &swapped, &ctx),
        Err(LeafBundleError::Kind(
            LeafKind::ShotSampling,
            LeafKind::TrajMarginal
        ))
    );
    list.push(0);
    let trailing = LeafFrames::Trajectory(Some(TrajectoryFrames {
        marginals: list,
        shot: framed(b"SHOT", 1, 20, &payload),
    }));
    assert_eq!(
        verify_leaf_pcs_bundle(&trailing, &leaf_markers(), &both, &ctx),
        Err(LeafBundleError::Frame(
            wqc_recursion::framing::FrameError::Trailing
        ))
    );
    assert_eq!(
        verify_leaf_pcs_bundle(&LeafFrames::Born(None), &leaf_markers(), &bundle, &ctx),
        Err(LeafBundleError::Wrapper)
    );
    assert_eq!(
        verify_leaf_pcs_bundle(
            &LeafFrames::Unitary(Some(vec![1, 2, 3])),
            &leaf_markers(),
            &bundle,
            &ctx
        ),
        Err(LeafBundleError::Decode)
    );
}

#[test]
fn groups_are_measured() {
    let keccak = |_a: &MmcsGroupPathAir, _m: &RowMajorMatrix, _p: &[Val]| {
        Ok::<Vec<u8>, String>(vec![0u8; 20])
    };
    let poseidon = |s: &[MmcsPathStatement]| {
        Ok::<PoseidonGroupFoldProof, String>(PoseidonGroupFoldProof {
            path_count: s.len() as u32,
            depth: 1,
            leaf_width: 3,
            group_stark: vec![0u8; 10 * s.len()],
        })
    };
    let view = view_of(&agg_proof(3, 5, 8));
    let bundle = fri_mmcs_bundle_from_agg_proof(&view, &params()).expect("bundle");
    let mut stmts = collect_leaf_mmcs_group_statements(&view, AGG_WIDTH, &bundle, &params())
        .expect("statements");
    let group = |n: usize| {
        MmcsGroupFoldProof::Poseidon(PoseidonGroupFoldProof {
            path_count: 8,
            depth: 1,
            leaf_width: 3,
            group_stark: vec![0u8; n],
        })
    };
    stmts.chal_commit.clear();
    stmts.chal_first_layer = None;
    let wide: Vec<Val> = vec![Val::one(); 70];
    stmts.val_quot = Some(vec![MmcsPathStatement {
        row: wide,
        siblings: vec![[0u8; 32]],
        index: 0,
        root: [0u8; 32],
    }]);
    stmts.val_quot_batch = None;
    let groups = LeafMmcsFoldGroups {
        val_trace: vec![group(100)],
        val_quot: vec![group(50)],
        ..Default::default()
    };
    let report =
        benchmark_poseidon_mmcs_groups(&stmts, &groups, 3, &keccak, &poseidon, &poseidon);
    assert_eq!(
        report,
        Ok(PoseidonMmcsBenchmarkReport {
            keccak_total: 0,
            poseidon_measured: 80,
            poseidon_extrapolated: 50,
            poseidon_total_estimate: 130,
            keccak_groups: 2,
            poseidon_groups_measured: 3,
            poseidon_groups_skipped_wide: 1,
        })
    );
    let empty = |_a: &MmcsGroupPathAir, _m: &RowMajorMatrix, _p: &[Val]| {
        Ok::<Vec<u8>, String>(vec![])
    };
    assert_eq!(
        benchmark_poseidon_mmcs_groups(&stmts, &groups, 3, &empty, &poseidon, &poseidon),
        Err(BenchmarkError::EmptyReference)
    );
    let down = |_s: &[MmcsPathStatement]| {
        Err::<PoseidonGroupFoldProof, String>("down".to_string())
    };
    assert_eq!(
        benchmark_poseidon_mmcs_groups(&stmts, &groups, 3, &keccak, &poseidon, &down),
        Err(BenchmarkError::Poseidon("down".to_string()))
    );
}
