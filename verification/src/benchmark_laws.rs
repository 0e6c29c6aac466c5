//! What a benchmark counts: every group of a leaf once, and every statement in one chunk.
use vstd::arithmetic::div_mod::{lemma_fundamental_div_mod, lemma_mod_bound};
use vstd::prelude::*;

use crate::fri_mmcs_group_m4b::MmcsPathStatement;
use crate::group_benchmark::{
    all_supported, categories, category_says, chunk_of, chunked_outcome, commit_categories,
    extrapolated, group_eligible, is_run, keccak_bytes, measured_outcome, measured_says,
    optional_category, proves, run_ends, skipped_says, BenchmarkError, PoseidonMmcsBenchmarkReport,
};
use crate::mmcs_group_fold::{MmcsGroupFoldProof, PoseidonGroupFoldProof};
use crate::mmcs_statements::LeafMmcsGroupStatements;
use crate::mmcs_strip::LeafMmcsFoldGroups;

verus! {

/// An extrapolated size is the size in the proportion of the ratio, rounded down.
pub proof fn lemma_extrapolated_proportion(size: int, ratio: (u64, u64))
    requires
        0 <= size,
        size * ratio.0 <= u64::MAX,
        ratio.1 > 0,
    ensures
        extrapolated(size, ratio) * ratio.1 <= size * ratio.0,
        size * ratio.0 < (extrapolated(size, ratio) + 1) * ratio.1,
{
    let p = size * ratio.0;
    let d = ratio.1 as int;
    lemma_fundamental_div_mod(p, d);
    lemma_mod_bound(p, d);
    let q = p / d;
    assert(d * q == q * d) by (nonlinear_arith);
    assert((q + 1) * d == q * d + d) by (nonlinear_arith);
}

/// Statements that are proven in chunks: there are just enough chunks, every statement stands in
/// the chunk of its place, and each group is the prover's answer to its chunk.
pub proof fn lemma_chunks_cover<
    Q: Fn(&[MmcsPathStatement]) -> Result<PoseidonGroupFoldProof, String>,
>(prover: Q, s: Seq<MmcsPathStatement>, chunk: int, g: Seq<MmcsGroupFoldProof>, i: int)
    requires
        chunk >= 1,
        group_eligible(s),
        all_supported(s),
        chunked_outcome(prover, s, chunk, Ok(g)),
        0 <= i < s.len(),
    ensures
        (g.len() - 1) * chunk < s.len() <= g.len() * chunk,
        0 <= i / chunk < g.len(),
        ({
            let part = chunk_of(s, chunk, i / chunk);
            &&& 0 <= i % chunk < part.len() <= chunk
            &&& part[i % chunk] == s[i]
            &&& g[i / chunk] matches MmcsGroupFoldProof::Poseidon(p) && exists|
                a: &[MmcsPathStatement],
            | #[trigger]
                call_ensures(prover, (a,), Ok(p)) && a@ == part
        }),
{
    let n = s.len() as int;
    let c = g.len() as int;
    lemma_fundamental_div_mod(n + chunk - 1, chunk);
    lemma_mod_bound(n + chunk - 1, chunk);
    assert(c == (n + chunk - 1) / chunk);
    assert(chunk * c == c * chunk) by (nonlinear_arith);
    assert((c - 1) * chunk == c * chunk - chunk) by (nonlinear_arith);
    let k = i / chunk;
    lemma_fundamental_div_mod(i, chunk);
    lemma_mod_bound(i, chunk);
    assert(chunk * k == k * chunk) by (nonlinear_arith);
    assert((k + 1) * chunk == k * chunk + chunk) by (nonlinear_arith);
    assert(k >= 0) by (nonlinear_arith)
        requires
            i >= 0,
            chunk >= 1,
            k == i / chunk,
    ;
    if k >= c {
        assert(k * chunk >= c * chunk) by (nonlinear_arith)
            requires
                k >= c,
                chunk >= 1,
        ;
    }
    assert(g[k] matches MmcsGroupFoldProof::Poseidon(p) && proves(
        prover,
        chunk_of(s, chunk, k),
        Ok(p),
    ));
}

/// The groups of the categories before category `n`.
pub open spec fn groups_before(
    cats: Seq<(Seq<MmcsPathStatement>, Seq<MmcsGroupFoldProof>)>,
    n: nat,
) -> int
    decreases n,
{
    if n == 0 {
        0
    } else {
        groups_before(cats, (n - 1) as nat) + cats[n - 1].1.len()
    }
}

/// The bytes of the Keccak groups of the categories before category `n`.
pub open spec fn bytes_before(
    cats: Seq<(Seq<MmcsPathStatement>, Seq<MmcsGroupFoldProof>)>,
    n: nat,
) -> int
    decreases n,
{
    if n == 0 {
        0
    } else {
        bytes_before(cats, (n - 1) as nat) + keccak_bytes(cats[n - 1].1)
    }
}

/// One category.
proof fn lemma_category_counts<
    Q: Fn(&[MmcsPathStatement]) -> Result<PoseidonGroupFoldProof, String>,
>(
    prover: Q,
    chunk: int,
    ratio: (u64, u64),
    c: (Seq<MmcsPathStatement>, Seq<MmcsGroupFoldProof>),
    a: PoseidonMmcsBenchmarkReport,
    b: PoseidonMmcsBenchmarkReport,
)
    requires
        category_says(prover, chunk, ratio, c, a, Ok(b)),
    ensures
        b.keccak_groups == a.keccak_groups + c.1.len(),
        b.keccak_total == a.keccak_total + keccak_bytes(c.1),
        c.0.len() == 0 ==> b.poseidon_measured == a.poseidon_measured
            && b.poseidon_extrapolated == a.poseidon_extrapolated,
        c.0.len() > 0 && all_supported(c.0) ==> b.poseidon_extrapolated
            == a.poseidon_extrapolated && b.poseidon_groups_skipped_wide
            == a.poseidon_groups_skipped_wide && b.poseidon_measured >= a.poseidon_measured,
        !all_supported(c.0) ==> b.poseidon_measured == a.poseidon_measured
            && b.poseidon_groups_measured == a.poseidon_groups_measured
            && b.poseidon_groups_skipped_wide == a.poseidon_groups_skipped_wide + c.1.len(),
{
    reveal(category_says);
    let x = Ok::<PoseidonMmcsBenchmarkReport, BenchmarkError>(b);
    let base = PoseidonMmcsBenchmarkReport {
        keccak_total: (a.keccak_total + keccak_bytes(c.1)) as u64,
        keccak_groups: (a.keccak_groups + c.1.len()) as u32,
        ..a
    };
    if c.0.len() > 0 && all_supported(c.0) {
        let p = choose|p: Result<Seq<MmcsGroupFoldProof>, String>| #[trigger]
            chunked_outcome(prover, c.0, chunk, p) && match p {
                Err(e) => x == Err::<PoseidonMmcsBenchmarkReport, BenchmarkError>(
                    BenchmarkError::Poseidon(e),
                ),
                Ok(v) => measured_says(base, v, x),
            };
        assert(p is Ok);
        assert(measured_says(base, p->Ok_0, x));
    } else if c.0.len() > 0 {
        assert(skipped_says(base, c.1, ratio, x));
    }
}

/// The counts of a run so far.
proof fn lemma_run_counts<
    Q: Fn(&[MmcsPathStatement]) -> Result<PoseidonGroupFoldProof, String>,
>(
    prover: Q,
    chunk: int,
    ratio: (u64, u64),
    cats: Seq<(Seq<MmcsPathStatement>, Seq<MmcsGroupFoldProof>)>,
    st: Seq<PoseidonMmcsBenchmarkReport>,
    n: nat,
)
    requires
        is_run(prover, chunk, ratio, cats, st),
        n < st.len(),
    ensures
        st[n as int].keccak_groups == groups_before(cats, n),
        st[n as int].keccak_total == bytes_before(cats, n),
    decreases n,
{
    if n > 0 {
        let k = n - 1;
        lemma_run_counts(prover, chunk, ratio, cats, st, k as nat);
        assert(category_says(prover, chunk, ratio, cats[k], st[k], Ok(st[k + 1])));
        lemma_category_counts(prover, chunk, ratio, cats[k], st[k], st[k + 1]);
    }
}

/// A report counts every group of every category once, with its bytes, and its estimate is what
/// was measured and what was extrapolated.
pub proof fn lemma_report_counts<
    Q: Fn(&[MmcsPathStatement]) -> Result<PoseidonGroupFoldProof, String>,
>(
    prover: Q,
    chunk: int,
    ratio: (u64, u64),
    cats: Seq<(Seq<MmcsPathStatement>, Seq<MmcsGroupFoldProof>)>,
    r: PoseidonMmcsBenchmarkReport,
)
    requires
        measured_outcome(prover, chunk, ratio, cats, Ok(r)),
    ensures
        r.keccak_groups == groups_before(cats, cats.len()),
        r.keccak_total == bytes_before(cats, cats.len()),
        r.poseidon_total_estimate == r.poseidon_measured + r.poseidon_extrapolated,
{
    let st = choose|st: Seq<PoseidonMmcsBenchmarkReport>| #[trigger]
        run_ends(prover, chunk, ratio, cats, st, r);
    lemma_run_counts(prover, chunk, ratio, cats, st, cats.len());
}

/// Each commit-phase category holds one group and a part of one depth's statements.
proof fn lemma_commit_categories(
    entries: Seq<(usize, Vec<MmcsPathStatement>)>,
    groups: Seq<MmcsGroupFoldProof>,
    i: int,
    off: int,
    g: int,
)
    requires
        0 <= i,
        0 <= off,
        0 <= g <= groups.len(),
    ensures
        ({
            let c = commit_categories(entries, groups, i, off, g);
            &&& c.len() <= groups.len() - g
            &&& forall|k: int|
                0 <= k < c.len() ==> (#[trigger] c[k]).1 == seq![groups[g + k]] && c[k].0.len()
                    <= groups[g + k].path_count_spec()
        }),
    decreases entries.len() - i, groups.len() - g,
{
    if i >= entries.len() {
    } else if off < entries[i].1@.len() && g < groups.len() {
        let to = off + groups[g].path_count_spec();
        let s = entries[i].1@;
        let end = if to < s.len() {
            to
        } else {
            s.len() as int
        };
        let rest = commit_categories(entries, groups, i, to, g + 1);
        lemma_commit_categories(entries, groups, i, to, g + 1);
        let first = seq![(s.subrange(off, end), seq![groups[g]])];
        let c = first + rest;
        assert(c == commit_categories(entries, groups, i, off, g));
        assert forall|k: int| 0 <= k < c.len() implies (#[trigger] c[k]).1 == seq![groups[g + k]]
            && c[k].0.len() <= groups[g + k].path_count_spec() by {
            if k > 0 {
                assert(c[k] == rest[k - 1]);
                assert(rest[k - 1].1 == seq![groups[g + 1 + (k - 1)]]);
            }
        }
    } else {
        lemma_commit_categories(entries, groups, i + 1, 0, g);
    }
}

/// The number of groups in a list that a leaf may have no statements for.
pub open spec fn optional_groups(
    s: Option<Vec<MmcsPathStatement>>,
    g: Seq<MmcsGroupFoldProof>,
) -> int {
    if s is Some {
        g.len() as int
    } else {
        0
    }
}

/// The sums over one more category.
proof fn lemma_before_concat(
    a: Seq<(Seq<MmcsPathStatement>, Seq<MmcsGroupFoldProof>)>,
    b: Seq<(Seq<MmcsPathStatement>, Seq<MmcsGroupFoldProof>)>,
    n: nat,
)
    requires
        n <= b.len(),
    ensures
        groups_before(a + b, a.len() + n) == groups_before(a, a.len()) + groups_before(b, n),
        bytes_before(a + b, a.len() + n) == bytes_before(a, a.len()) + bytes_before(b, n),
    decreases n,
{
    if n == 0 {
        lemma_before_prefix(a, b, a.len());
    } else {
        let m = (n - 1) as nat;
        lemma_before_concat(a, b, m);
        assert((a + b)[a.len() + n - 1] == b[n - 1]);
    }
}

/// The sums over a prefix.
proof fn lemma_before_prefix(
    a: Seq<(Seq<MmcsPathStatement>, Seq<MmcsGroupFoldProof>)>,
    b: Seq<(Seq<MmcsPathStatement>, Seq<MmcsGroupFoldProof>)>,
    n: nat,
)
    requires
        n <= a.len(),
    ensures
        groups_before(a + b, n) == groups_before(a, n),
        bytes_before(a + b, n) == bytes_before(a, n),
    decreases n,
{
    if n > 0 {
        lemma_before_prefix(a, b, (n - 1) as nat);
        assert((a + b)[n - 1] == a[n - 1]);
    }
}

/// The sums over the category of one kind.
proof fn lemma_optional_sums(s: Option<Vec<MmcsPathStatement>>, g: Seq<MmcsGroupFoldProof>)
    ensures
        groups_before(optional_category(s, g), optional_category(s, g).len()) == optional_groups(
            s,
            g,
        ),
        bytes_before(optional_category(s, g), optional_category(s, g).len()) == if s is Some {
            keccak_bytes(g) as int
        } else {
            0
        },
{
    reveal_with_fuel(groups_before, 2);
    reveal_with_fuel(bytes_before, 2);
}

/// The sums over categories of one group each.
proof fn lemma_single_sums(c: Seq<(Seq<MmcsPathStatement>, Seq<MmcsGroupFoldProof>)>, n: nat)
    requires
        n <= c.len(),
        forall|k: int| 0 <= k < c.len() ==> (#[trigger] c[k]).1.len() == 1,
    ensures
        groups_before(c, n) == n,
    decreases n,
{
    if n > 0 {
        lemma_single_sums(c, (n - 1) as nat);
    }
}

/// The groups that a report on a leaf counts: those of the trace, those of each kind the leaf
/// has statements for, and one for each commit-phase group that statements are left for.
pub proof fn lemma_leaf_groups_counted<
    Q: Fn(&[MmcsPathStatement]) -> Result<PoseidonGroupFoldProof, String>,
>(
    prover: Q,
    chunk: int,
    ratio: (u64, u64),
    s: LeafMmcsGroupStatements,
    k: LeafMmcsFoldGroups,
    r: PoseidonMmcsBenchmarkReport,
)
    requires
        measured_outcome(prover, chunk, ratio, categories(s, k), Ok(r)),
    ensures
        ({
            let fixed = k.val_trace@.len() + optional_groups(s.val_quot, k.val_quot@)
                + optional_groups(s.val_quot_batch, k.val_quot_batch@) + optional_groups(
                s.chal_first_layer,
                k.chal_first_layer@,
            );
            let commit = commit_categories(s.chal_commit@, k.chal_commit@, 0, 0, 0).len();
            &&& fixed <= r.keccak_groups <= fixed + k.chal_commit@.len()
            &&& r.keccak_groups == fixed + commit
        }),
{
    let a = seq![(s.val_trace@, k.val_trace@)];
    let b = optional_category(s.val_quot, k.val_quot@);
    let c = optional_category(s.val_quot_batch, k.val_quot_batch@);
    let d = optional_category(s.chal_first_layer, k.chal_first_layer@);
    let e = commit_categories(s.chal_commit@, k.chal_commit@, 0, 0, 0);
    lemma_report_counts(prover, chunk, ratio, categories(s, k), r);
    lemma_before_concat(a, b, b.len());
    lemma_before_concat(a + b, c, c.len());
    lemma_before_concat(a + b + c, d, d.len());
    lemma_before_concat(a + b + c + d, e, e.len());
    lemma_optional_sums(s.val_quot, k.val_quot@);
    lemma_optional_sums(s.val_quot_batch, k.val_quot_batch@);
    lemma_optional_sums(s.chal_first_layer, k.chal_first_layer@);
    lemma_commit_categories(s.chal_commit@, k.chal_commit@, 0, 0, 0);
    lemma_single_sums(e, e.len());
    reveal_with_fuel(groups_before, 2);
    assert(groups_before(a, 1) == k.val_trace@.len());
}

} // verus!
