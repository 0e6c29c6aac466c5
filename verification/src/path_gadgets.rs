//! Constraint families that tie sponge segments to the levels of a Merkle path.
//!
//! A path is laid out as one leaf segment and one compress segment per level. The families
//! here bind each segment's first row to what it absorbs, and its idle rows to the digest it
//! yields, at given offsets of the public values.
use vstd::prelude::*;

use crate::constraint::{all_zero, evals, fxor, lemma_all_zero_concat, ConstraintSink, Expr};
use crate::field::{fadd, fmul, fsub};
use crate::keccak_f_air::round_cells;
use crate::sponge_gadgets::{
    bits_value, bits_value_expr, bytes_constraints, constrain_bytes, constrain_second_block,
    constrain_start, constrain_zero, first_block, first_block_exprs, pack_byte_from_state_bits,
    packed_byte, second_block_constraints, start_constraints, zero_constraints,
};

verus! {

/// `f(0) + f(1) + .. + f(n - 1)`, concatenated.
pub open spec fn flat(n: nat, f: spec_fn(int) -> Seq<int>) -> Seq<int>
    decreases n,
{
    if n == 0 {
        Seq::empty()
    } else {
        flat((n - 1) as nat, f) + f(n - 1)
    }
}

/// Blocks of `k` entries each stand one after the other.
pub proof fn lemma_flat_even(n: nat, f: spec_fn(int) -> Seq<int>, k: nat)
    requires
        forall|i: int| 0 <= i < n ==> (#[trigger] f(i)).len() == k,
    ensures
        flat(n, f).len() == n * k,
        forall|i: int, j: int|
            0 <= i < n && 0 <= j < k ==> #[trigger] flat(n, f)[i * k + j] == f(i)[j],
    decreases n,
{
    if n == 0 {
        assert(0 * k == 0);
    } else {
        let m: nat = (n - 1) as nat;
        lemma_flat_even(m, f, k);
        assert(m * k + k == n * k) by (nonlinear_arith)
            requires
                m == n - 1,
        ;
        assert forall|i: int, j: int| 0 <= i < n && 0 <= j < k implies #[trigger] flat(n, f)[i * k
            + j] == f(i)[j] by {
            if i < m {
                assert(i * k + k <= m * k) by (nonlinear_arith)
                    requires
                        0 <= i < m,
                        k >= 0,
                ;
                assert(0 <= i * k) by (nonlinear_arith)
                    requires
                        0 <= i,
                        k >= 0,
                ;
                assert(flat(m, f)[i * k + j] == f(i)[j]);
            }
        }
    }
}

/// Lists of equal blocks are equal.
pub proof fn lemma_flat_same(n: nat, f: spec_fn(int) -> Seq<int>, g: spec_fn(int) -> Seq<int>)
    requires
        forall|i: int| 0 <= i < n ==> #[trigger] f(i) == g(i),
    ensures
        flat(n, f) == flat(n, g),
    decreases n,
{
    if n > 0 {
        lemma_flat_same((n - 1) as nat, f, g);
        assert(f(n - 1) == g(n - 1));
    }
}

/// A list of blocks is all zero exactly when every block is.
pub proof fn lemma_flat_all_zero(n: nat, f: spec_fn(int) -> Seq<int>)
    ensures
        all_zero(flat(n, f)) <==> forall|i: int| 0 <= i < n ==> all_zero(#[trigger] f(i)),
    decreases n,
{
    if n > 0 {
        lemma_flat_all_zero((n - 1) as nat, f);
        lemma_all_zero_concat(flat((n - 1) as nat, f), f(n - 1));
        if all_zero(flat(n, f)) {
            assert forall|i: int| 0 <= i < n implies all_zero(#[trigger] f(i)) by {}
        }
    }
}

/// `init` times, for each bit position, one where the bits agree and zero where they differ.
pub open spec fn same_bits_upto(init: int, a: Seq<int>, b: Seq<int>, n: nat) -> int
    decreases n,
{
    if n == 0 {
        init
    } else {
        fmul(same_bits_upto(init, a, b, (n - 1) as nat), fsub(1, fxor(a[n - 1], b[n - 1])))
    }
}

pub fn same_bits_expr<E: Expr>(init: E, a: &[E], b: &[E]) -> (r: E)
    requires
        a@.len() == b@.len(),
    ensures
        r.val() == same_bits_upto(init.val(), evals(a@), evals(b@), a@.len()),
{
    let one = E::lit(1);
    let ghost v0: int = init.val();
    let mut acc = init;
    let mut k: usize = 0;
    while k < a.len()
        invariant
            k <= a.len(),
            a@.len() == b@.len(),
            one.val() == 1,
            acc.val() == same_bits_upto(v0, evals(a@), evals(b@), k as nat),
        decreases a.len() - k,
    {
        let x = crate::constraint::expr_xor(&a[k], &b[k]);
        acc = acc.times(&one.minus(&x));
        k += 1;
    }
    acc
}

/// Where a path's parts stand among the public values.
#[derive(Copy, Clone)]
pub struct PathOffsets {
    pub msg: usize,
    pub leaf_digest: usize,
    pub root: usize,
    pub index: usize,
    pub index_bits: usize,
    pub siblings: usize,
    pub layers: usize,
}

/// All parts of a path of at most 20 levels lie within `n` public values.
pub open spec fn offsets_fit(off: PathOffsets, len: int, n: int) -> bool {
    &&& off.msg + len <= n
    &&& off.leaf_digest + 32 <= n
    &&& off.root + 32 <= n
    &&& off.index < n
    &&& off.index_bits + 20 <= n
    &&& off.siblings + 640 <= n
    &&& off.layers + 640 <= n
}

/// The selectors of a path's segments on a row pair.
pub struct PathSelectors<E> {
    pub leaf_start: E,
    pub second_block: E,
    pub layer_start: Vec<E>,
    pub leaf_idle: E,
    pub layer_idle: Vec<E>,
}

/// What [`PathSelectors`] hold.
#[verifier::ext_equal]
pub struct PathSelectorVals {
    pub leaf_start: int,
    pub second_block: int,
    pub layer_start: Seq<int>,
    pub leaf_idle: int,
    pub layer_idle: Seq<int>,
}

impl<E: Expr> View for PathSelectors<E> {
    type V = PathSelectorVals;

    open spec fn view(&self) -> PathSelectorVals {
        PathSelectorVals {
            leaf_start: self.leaf_start.val(),
            second_block: self.second_block.val(),
            layer_start: evals(self.layer_start@),
            leaf_idle: self.leaf_idle.val(),
            layer_idle: evals(self.layer_idle@),
        }
    }
}

/// The digest that level `layer` continues from.
pub open spec fn prev_digest(pv: Seq<int>, off: PathOffsets, layer: int) -> Seq<int> {
    if layer == 0 {
        pv.subrange(off.leaf_digest as int, off.leaf_digest as int + 32)
    } else {
        pv.subrange(off.layers + 32 * (layer - 1), off.layers + 32 * layer)
    }
}

/// Byte `j / 2` of the left (even `j`) or right (odd `j`) half that a level absorbs: the
/// running digest and the sibling, swapped where the index bit is set.
pub open spec fn ordered_half(bit: int, prev: Seq<int>, sib: Seq<int>, j: int) -> int {
    let i = j / 2;
    if j % 2 == 0 {
        fadd(fmul(fsub(1, bit), prev[i]), fmul(bit, sib[i]))
    } else {
        fadd(fmul(bit, prev[i]), fmul(fsub(1, bit), sib[i]))
    }
}

/// The padding of a 64-byte message within the rate.
pub open spec fn compress_pad() -> Seq<int> {
    Seq::new(
        72,
        |i: int|
            if i == 0 {
                1
            } else if i == 71 {
                0x80
            } else {
                0int
            },
    )
}

/// Where `en` is on, the row starts the compress segment of one level.
#[verifier::opaque]
pub open spec fn layer_start_constraints(
    state: Seq<int>,
    bit: int,
    prev: Seq<int>,
    sib: Seq<int>,
    live: int,
    round_c: int,
    en: int,
) -> Seq<int> {
    Seq::new(
        64,
        |j: int|
            fmul(
                en,
                fsub(
                    packed_byte(state, j / 2 + 32 * (j % 2)),
                    ordered_half(bit, prev, sib, j),
                ),
            ),
    ) + bytes_constraints(state, 64, compress_pad(), en) + zero_constraints(
        state.subrange(1088, 1600),
        en,
    ) + seq![fmul(en, fsub(live, 1)), fmul(en, round_c)]
}

fn constrain_layer_start<S: ConstraintSink>(
    sink: &mut S,
    state: &[S::E],
    bit: &S::E,
    prev: &[S::E],
    sib: &[S::E],
    live: &S::E,
    round_c: &S::E,
    en: &S::E,
)
    requires
        state@.len() == 1600,
        prev@.len() == 32,
        sib@.len() == 32,
    ensures
        final(sink).emitted() == old(sink).emitted() + layer_start_constraints(
            evals(state@),
            bit.val(),
            evals(prev@),
            evals(sib@),
            live.val(),
            round_c.val(),
            en.val(),
        ),
{
    let ghost e0 = sink.emitted();
    let ghost want = Seq::new(
        64,
        |j: int|
            fmul(
                en.val(),
                fsub(
                    packed_byte(evals(state@), j / 2 + 32 * (j % 2)),
                    ordered_half(bit.val(), evals(prev@), evals(sib@), j),
                ),
            ),
    );
    let one = <S::E as Expr>::lit(1);
    let not_bit = one.minus(bit);
    let mut i: usize = 0;
    while i < 32
        invariant
            i <= 32,
            state@.len() == 1600,
            prev@.len() == 32,
            sib@.len() == 32,
            not_bit.val() == fsub(1, bit.val()),
            want == Seq::new(
                64,
                |j: int|
                    fmul(
                        en.val(),
                        fsub(
                            packed_byte(evals(state@), j / 2 + 32 * (j % 2)),
                            ordered_half(bit.val(), evals(prev@), evals(sib@), j),
                        ),
                    ),
            ),
            sink.emitted() == e0 + want.take(2 * i),
        decreases 32 - i,
    {
        let left = not_bit.times(&prev[i]).plus(&bit.times(&sib[i]));
        let right = bit.times(&prev[i]).plus(&not_bit.times(&sib[i]));
        let packed_l = pack_byte_from_state_bits(state, i);
        let packed_r = pack_byte_from_state_bits(state, 32 + i);
        sink.assert_zero(en.times(&packed_l.minus(&left)));
        sink.assert_zero(en.times(&packed_r.minus(&right)));
        proof {
            assert((2 * i) / 2 == i && (2 * i) % 2 == 0);
            assert((2 * i + 1) / 2 == i && (2 * i + 1) % 2 == 1);
            assert(sink.emitted() =~= e0 + want.take(2 * (i + 1)));
        }
        i += 1;
    }
    proof {
        assert(want.take(64) =~= want);
    }
    let mut pad: Vec<S::E> = Vec::with_capacity(72);
    i = 0;
    while i < 72
        invariant
            i <= 72,
            pad@.len() == i,
            forall|k: int| 0 <= k < i ==> #[trigger] pad@[k].val() == compress_pad()[k],
        decreases 72 - i,
    {
        if i == 0 {
            pad.push(<S::E as Expr>::lit(1));
        } else if i == 71 {
            pad.push(<S::E as Expr>::lit(0x80));
        } else {
            pad.push(<S::E as Expr>::lit(0));
        }
        i += 1;
    }
    proof {
        assert(evals(pad@) =~= compress_pad());
    }
    constrain_bytes(sink, state, 64, pad.as_slice(), en);
    let cap = vstd::slice::slice_subrange(state, 1088, 1600);
    proof {
        assert(evals(cap@) =~= evals(state@).subrange(1088, 1600));
    }
    constrain_zero(sink, cap, en);
    sink.assert_zero(en.times(&live.minus(&one)));
    sink.assert_zero(en.times(round_c));
    proof {
        reveal(layer_start_constraints);
        assert(sink.emitted() =~= e0 + layer_start_constraints(
            evals(state@),
            bit.val(),
            evals(prev@),
            evals(sib@),
            live.val(),
            round_c.val(),
            en.val(),
        ));
    }
}

/// The cells and counters that path constraints read.
pub struct SpongeCells<'a, E> {
    pub state_c: &'a [E],
    pub state_n: &'a [E],
    pub rc: &'a [E],
    /// What the round yields of `state_c`.
    pub expected: &'a [E],
    pub live: &'a E,
    pub round_c: &'a E,
    pub round_n: &'a E,
}

/// What [`SpongeCells`] hold. `expected` is left out: `state_c` and `rc` determine it.
#[verifier::ext_equal]
pub struct SpongeCellVals {
    pub state_c: Seq<int>,
    pub state_n: Seq<int>,
    pub rc: Seq<int>,
    pub live: int,
    pub round_c: int,
    pub round_n: int,
}

impl<'a, E: Expr> View for SpongeCells<'a, E> {
    type V = SpongeCellVals;

    open spec fn view(&self) -> SpongeCellVals {
        SpongeCellVals {
            state_c: evals(self.state_c@),
            state_n: evals(self.state_n@),
            rc: evals(self.rc@),
            live: self.live.val(),
            round_c: self.round_c.val(),
            round_n: self.round_n.val(),
        }
    }
}

/// The start of level `layer`.
pub open spec fn layer_start_block(
    c: SpongeCellVals,
    pv: Seq<int>,
    off: PathOffsets,
    s: PathSelectorVals,
    layer: int,
) -> Seq<int> {
    layer_start_constraints(
        c.state_c,
        pv[off.index_bits + layer],
        prev_digest(pv, off, layer),
        pv.subrange(off.siblings + 32 * layer, off.siblings + 32 * (layer + 1)),
        c.live,
        c.round_c,
        s.layer_start[layer],
    )
}

/// The digest of level `layer`.
pub open spec fn layer_idle_block(
    c: SpongeCellVals,
    pv: Seq<int>,
    off: PathOffsets,
    s: PathSelectorVals,
    layer: int,
) -> Seq<int> {
    bytes_constraints(
        c.state_c,
        0,
        pv.subrange(off.layers + 32 * layer, off.layers + 32 * (layer + 1)),
        s.layer_idle[layer],
    )
}

/// All segment constraints of one path: the leaf absorbs the message, each level absorbs the
/// running digest and its sibling in index order, each segment yields the listed digest, and
/// the last one is the root.
#[verifier::opaque]
pub open spec fn path_constraints(
    c: SpongeCellVals,
    pv: Seq<int>,
    off: PathOffsets,
    len: int,
    depth: nat,
    s: PathSelectorVals,
) -> Seq<int> {
    start_constraints(c.state_c, first_block(pv, off.msg as int, len), c.live, c.round_c, s.leaf_start)
        + (if len > 136 {
        second_block_constraints(
            c.state_c,
            c.state_n,
            c.rc,
            pv,
            off.msg as int,
            len,
            c.round_n,
            s.second_block,
        )
    } else {
        Seq::empty()
    }) + flat(depth, |l: int| layer_start_block(c, pv, off, s, l)) + bytes_constraints(
        c.state_c,
        0,
        pv.subrange(off.leaf_digest as int, off.leaf_digest as int + 32),
        s.leaf_idle,
    ) + flat(depth, |l: int| layer_idle_block(c, pv, off, s, l)) + Seq::new(
        32,
        |i: int| fsub(pv[off.layers + 32 * (depth - 1) + i], pv[off.root + i]),
    )
}

pub fn constrain_path<S: ConstraintSink>(
    sink: &mut S,
    c: &SpongeCells<S::E>,
    pv: &[S::E],
    off: PathOffsets,
    len: usize,
    depth: usize,
    s: &PathSelectors<S::E>,
)
    requires
        c.state_c@.len() == 1600,
        c.state_n@.len() == 1600,
        c.expected@.len() == 1600,
        evals(c.expected@) == round_cells(evals(c.state_c@), evals(c.rc@)),
        0 < depth <= 20,
        len <= 272,
        offsets_fit(off, len as int, pv@.len() as int),
        s.layer_start@.len() == depth,
        s.layer_idle@.len() == depth,
    ensures
        final(sink).emitted() == old(sink).emitted() + path_constraints(
            c@,
            evals(pv@),
            off,
            len as int,
            depth as nat,
            s@,
        ),
{
    let n: usize = pv.len();
    let ghost pvv = evals(pv@);
    let ghost e0 = sink.emitted();
    let ghost fs = |l: int| layer_start_block(c@, pvv, off, s@, l);
    let ghost fi = |l: int| layer_idle_block(c@, pvv, off, s@, l);
    let block = first_block_exprs(pv, off.msg, len);
    constrain_start(sink, c.state_c, block.as_slice(), c.live, c.round_c, &s.leaf_start);
    if len > 136 {
        constrain_second_block(
            sink,
            Ghost(evals(c.state_c@)),
            Ghost(evals(c.rc@)),
            c.expected,
            c.state_n,
            pv,
            off.msg,
            len,
            c.round_n,
            &s.second_block,
        );
    }
    let ghost e1 = sink.emitted();
    let mut l: usize = 0;
    while l < depth
        invariant
            l <= depth,
            c.state_c@.len() == 1600,
            0 < depth <= 20,
            n == pv@.len(),
            pvv == evals(pv@),
            offsets_fit(off, len as int, pv@.len() as int),
            s.layer_start@.len() == depth,
            fs == (|l: int| layer_start_block(c@, pvv, off, s@, l)),
            sink.emitted() == e1 + flat(l as nat, fs),
        decreases depth - l,
    {
        let prev = if l == 0 {
            vstd::slice::slice_subrange(pv, off.leaf_digest, off.leaf_digest + 32)
        } else {
            vstd::slice::slice_subrange(pv, off.layers + 32 * (l - 1), off.layers + 32 * l)
        };
        let sib = vstd::slice::slice_subrange(
            pv,
            off.siblings + 32 * l,
            off.siblings + 32 * (l + 1),
        );
        let ghost before = sink.emitted();
        constrain_layer_start(
            sink,
            c.state_c,
            &pv[off.index_bits + l],
            prev,
            sib,
            c.live,
            c.round_c,
            &s.layer_start[l],
        );
        proof {
            assert(evals(prev@) =~= prev_digest(pvv, off, l as int));
            assert(evals(sib@) =~= pvv.subrange(
                off.siblings + 32 * l,
                off.siblings + 32 * (l + 1),
            ));
            assert(fs(l as int) == layer_start_block(c@, pvv, off, s@, l as int));
            assert(sink.emitted() =~= before + fs(l as int));
            assert(flat((l + 1) as nat, fs) =~= flat(l as nat, fs) + fs(l as int));
            assert(sink.emitted() =~= e1 + flat((l + 1) as nat, fs));
        }
        l += 1;
    }
    let leaf_d = vstd::slice::slice_subrange(pv, off.leaf_digest, off.leaf_digest + 32);
    proof {
        assert(evals(leaf_d@) =~= pvv.subrange(
            off.leaf_digest as int,
            off.leaf_digest as int + 32,
        ));
    }
    constrain_bytes(sink, c.state_c, 0, leaf_d, &s.leaf_idle);
    let ghost e2 = sink.emitted();
    l = 0;
    while l < depth
        invariant
            l <= depth,
            c.state_c@.len() == 1600,
            0 < depth <= 20,
            n == pv@.len(),
            pvv == evals(pv@),
            offsets_fit(off, len as int, pv@.len() as int),
            s.layer_idle@.len() == depth,
            fi == (|l: int| layer_idle_block(c@, pvv, off, s@, l)),
            sink.emitted() == e2 + flat(l as nat, fi),
        decreases depth - l,
    {
        let d = vstd::slice::slice_subrange(pv, off.layers + 32 * l, off.layers + 32 * (l + 1));
        let ghost before = sink.emitted();
        constrain_bytes(sink, c.state_c, 0, d, &s.layer_idle[l]);
        proof {
            assert(evals(d@) =~= pvv.subrange(off.layers + 32 * l, off.layers + 32 * (l + 1)));
            assert(fi(l as int) == layer_idle_block(c@, pvv, off, s@, l as int));
            assert(sink.emitted() =~= before + fi(l as int));
            assert(flat((l + 1) as nat, fi) =~= flat(l as nat, fi) + fi(l as int));
            assert(sink.emitted() =~= e2 + flat((l + 1) as nat, fi));
        }
        l += 1;
    }
    let ghost e3 = sink.emitted();
    let ghost want = Seq::new(
        32,
        |i: int| fsub(pvv[off.layers + 32 * (depth - 1) + i], pvv[off.root + i]),
    );
    let mut i: usize = 0;
    while i < 32
        invariant
            i <= 32,
            0 < depth <= 20,
            n == pv@.len(),
            pvv == evals(pv@),
            offsets_fit(off, len as int, pv@.len() as int),
            want == Seq::new(
                32,
                |i: int| fsub(pvv[off.layers + 32 * (depth - 1) + i], pvv[off.root + i]),
            ),
            sink.emitted() == e3 + want.take(i as int),
        decreases 32 - i,
    {
        sink.assert_zero(pv[off.layers + 32 * (depth - 1) + i].minus(&pv[off.root + i]));
        proof {
            assert(sink.emitted() =~= e3 + want.take(i + 1));
        }
        i += 1;
    }
    proof {
        assert(want.take(32) =~= want);
        reveal(path_constraints);
        assert(sink.emitted() =~= e0 + path_constraints(
            c@,
            pvv,
            off,
            len as int,
            depth as nat,
            s@,
        ));
    }
}

/// Index bits beyond the depth are zero, and the others spell the index.
#[verifier::opaque]
pub open spec fn index_constraints(pv: Seq<int>, off: PathOffsets, depth: int) -> Seq<int> {
    pv.subrange(off.index_bits + depth, off.index_bits as int + 20) + seq![
        fsub(
            bits_value(pv.subrange(off.index_bits as int, off.index_bits + depth)),
            pv[off.index as int],
        ),
    ]
}

pub fn constrain_index<S: ConstraintSink>(
    sink: &mut S,
    pv: &[S::E],
    off: PathOffsets,
    depth: usize,
)
    requires
        depth <= 20,
        off.index_bits + 20 <= pv@.len(),
        off.index < pv@.len(),
    ensures
        final(sink).emitted() == old(sink).emitted() + index_constraints(
            evals(pv@),
            off,
            depth as int,
        ),
{
    let n: usize = pv.len();
    let ghost pvv = evals(pv@);
    let ghost e0 = sink.emitted();
    let ghost want = pvv.subrange(off.index_bits + depth, off.index_bits as int + 20);
    let mut i: usize = depth;
    while i < 20
        invariant
            depth <= i <= 20,
            n == pv@.len(),
            off.index_bits + 20 <= n,
            pvv == evals(pv@),
            want == pvv.subrange(off.index_bits + depth, off.index_bits as int + 20),
            sink.emitted() == e0 + want.take(i - depth),
        decreases 20 - i,
    {
        sink.assert_zero(pv[off.index_bits + i].dup());
        proof {
            assert(sink.emitted() =~= e0 + want.take(i + 1 - depth));
        }
        i += 1;
    }
    proof {
        assert(want.take(20 - depth) =~= want);
    }
    let bits = vstd::slice::slice_subrange(pv, off.index_bits, off.index_bits + depth);
    let acc = bits_value_expr(bits);
    sink.assert_zero(acc.minus(&pv[off.index]));
    proof {
        assert(evals(bits@) =~= pvv.subrange(off.index_bits as int, off.index_bits + depth));
        reveal(index_constraints);
        assert(sink.emitted() =~= e0 + index_constraints(pvv, off, depth as int));
    }
}

} // verus!
