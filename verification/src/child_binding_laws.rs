//! What is bound of a child: the payload bytes that its frames hold, laid out in full.
use vstd::prelude::*;

use crate::checks::{lemma_first_some_absent, lemma_first_some_at};
use crate::child_binding::{
    bound_bytes, is_binding, marginal_payloads, sha3_256, trajectory_payload,
    ChildFrames, ChildMarkers, ChildStarkBinding, TrajectoryFrames,
};
use crate::framing::{
    after_texts, after_zero, frame_payload, marker_at, number_at, payload_at, payload_list,
    payload_run, stands_at, FrameError,
};

verus! {

/// A number in four bytes, least significant first.
pub open spec fn four_bytes(n: nat) -> Seq<u8> {
    seq![
        (n % 256) as u8,
        (n / 256 % 256) as u8,
        (n / 65536 % 256) as u8,
        (n / 16777216 % 256) as u8,
    ]
}

/// Texts, each with a zero byte behind it.
pub open spec fn texts_bytes(texts: Seq<Seq<u8>>) -> Seq<u8>
    decreases texts.len(),
{
    if texts.len() == 0 {
        Seq::empty()
    } else {
        texts_bytes(texts.drop_last()) + texts.last() + seq![0u8]
    }
}

/// No text holds a zero byte.
pub open spec fn plain_texts(texts: Seq<Seq<u8>>) -> bool {
    forall|k: int, i: int|
        0 <= k < texts.len() && 0 <= i < texts[k].len() ==> #[trigger] texts[k][i] != 0
}

/// The parts of a frame.
pub struct FrameParts {
    /// What stands before the marker.
    pub before: Seq<u8>,
    pub texts: Seq<Seq<u8>>,
    pub fields: Seq<u8>,
    pub payload: Seq<u8>,
    /// What stands behind the payload.
    pub after: Seq<u8>,
}

impl FrameParts {
    /// The bytes of a frame: what stands before, the marker, the texts, the fields, the length
    /// of the payload in four bytes, the payload, and what stands behind.
    pub open spec fn bytes(self, marker: Seq<u8>) -> Seq<u8> {
        self.before + marker + texts_bytes(self.texts) + self.fields + four_bytes(
            self.payload.len(),
        ) + self.payload + self.after
    }

    /// The texts end where their zero bytes say, the length fits its bytes, and the marker does
    /// not occur earlier.
    pub open spec fn ok(self, marker: Seq<u8>) -> bool {
        &&& plain_texts(self.texts)
        &&& self.payload.len() < 0x1_0000_0000
        &&& forall|i: int|
            0 <= i < self.before.len() && i + marker.len() <= self.bytes(marker).len()
                ==> #[trigger] self.bytes(marker).subrange(i, i + marker.len()) != marker
    }
}

/// A part of a child that holds no such marker.
pub open spec fn unmarked(part: Option<Vec<u8>>, marker: Seq<u8>) -> bool {
    part matches Some(v) ==> forall|i: int|
        0 <= i < v@.len() && i + marker.len() <= v@.len() ==> #[trigger] v@.subrange(
            i,
            i + marker.len(),
        ) != marker
}

/// The number of bytes before payload `n`.
pub open spec fn offset_of(payloads: Seq<Seq<u8>>, n: nat) -> int
    decreases n,
{
    if n == 0 {
        0
    } else {
        offset_of(payloads, (n - 1) as nat) + payloads[n - 1].len()
    }
}

/// `bytes` holds the payloads one after the other, each at the offset of the lengths before it,
/// then `last`, and nothing else.
pub open spec fn laid_out(bytes: Seq<u8>, payloads: Seq<Seq<u8>>, last: Seq<u8>) -> bool {
    let end = offset_of(payloads, payloads.len());
    &&& bytes.len() == end + last.len()
    &&& forall|i: int, j: int|
        0 <= i < payloads.len() && 0 <= j < payloads[i].len() ==> bytes[offset_of(
            payloads,
            i as nat,
        ) + j] == #[trigger] payloads[i][j]
    &&& forall|j: int| 0 <= j < last.len() ==> bytes[end + j] == #[trigger] last[j]
}

/// Frames one after the other, each behind its length in four bytes.
pub open spec fn listed(frames: Seq<Seq<u8>>, n: nat) -> Seq<u8>
    decreases n,
{
    if n == 0 {
        Seq::empty()
    } else {
        listed(frames, (n - 1) as nat) + four_bytes(frames[n - 1].len()) + frames[n - 1]
    }
}

/// `bytes` is a counted list of frames, and perhaps more bytes.
pub open spec fn is_list(bytes: Seq<u8>, frames: Seq<Seq<u8>>, more: Seq<u8>) -> bool {
    &&& frames.len() < 0x1_0000_0000
    &&& forall|i: int| 0 <= i < frames.len() ==> (#[trigger] frames[i]).len() < 0x1_0000_0000
    &&& bytes == four_bytes(frames.len()) + listed(frames, frames.len()) + more
}

/// Four bytes spell their number.
proof fn lemma_four_bytes(n: nat)
    requires
        n < 0x1_0000_0000,
    ensures
        four_bytes(n).len() == 4,
        number_at(four_bytes(n), 0) == n,
{
    let (a, b, c, d) = (n % 256, n / 256 % 256, n / 65536 % 256, n / 16777216 % 256);
    assert(n / 65536 == n / 256 / 256);
    assert(n / 16777216 == n / 65536 / 256);
    assert(n == a + 256 * b + 65536 * c + 16777216 * d);
}

/// A number and a payload read back, wherever they stand.
proof fn lemma_payload_there(bytes: Seq<u8>, at: int, payload: Seq<u8>)
    requires
        0 <= at,
        payload.len() < 0x1_0000_0000,
        at + 4 + payload.len() <= bytes.len(),
        bytes.subrange(at, at + 4) == four_bytes(payload.len()),
        bytes.subrange(at + 4, at + 4 + payload.len()) == payload,
    ensures
        payload_at(bytes, at) == Ok::<Seq<u8>, FrameError>(payload),
{
    lemma_four_bytes(payload.len());
    let four = bytes.subrange(at, at + 4);
    assert(bytes[at] == four[0] && bytes[at + 1] == four[1]);
    assert(bytes[at + 2] == four[2] && bytes[at + 3] == four[3]);
}

/// Texts are passed one after the other.
proof fn lemma_texts_passed(bytes: Seq<u8>, from: int, texts: Seq<Seq<u8>>)
    requires
        0 <= from,
        plain_texts(texts),
        from + texts_bytes(texts).len() <= bytes.len(),
        bytes.subrange(from, from + texts_bytes(texts).len()) == texts_bytes(texts),
    ensures
        after_texts(bytes, from, texts.len()) == Some(from + texts_bytes(texts).len()),
    decreases texts.len(),
{
    if texts.len() > 0 {
        let short = texts.drop_last();
        let t = texts.last();
        let head = texts_bytes(short);
        let all = texts_bytes(texts);
        assert(all == head + t + seq![0u8]);
        assert forall|k: int, i: int|
            0 <= k < short.len() && 0 <= i < short[k].len() implies #[trigger] short[k][i]
            != 0 by {
            assert(texts[k][i] != 0);
        }
        assert(bytes.subrange(from, from + head.len()) =~= head) by {
            assert forall|i: int| 0 <= i < head.len() implies bytes[from + i] == head[i] by {
                assert(bytes.subrange(from, from + all.len())[i] == all[i]);
            }
        }
        lemma_texts_passed(bytes, from, short);
        let p = from + head.len();
        let end = p + t.len();
        let f = |i: int|
            if p <= i && bytes[i] == 0 {
                Some(i + 1)
            } else {
                None
            };
        assert forall|i: int| 0 <= i < end implies #[trigger] f(i) is None by {
            if p <= i {
                assert(bytes.subrange(from, from + all.len())[i - from] == all[i - from]);
                assert(all[i - from] == t[i - p]);
                assert(texts[texts.len() - 1][i - p] != 0);
            }
        }
        assert(bytes[end] == 0) by {
            assert(bytes.subrange(from, from + all.len())[end - from] == all[end - from]);
        }
        lemma_first_some_at(bytes.len(), f, end, end + 1);
        assert(after_zero(bytes, p) == Some(end + 1));
    }
}

/// The bytes of a part of a concatenation.
proof fn lemma_middle(a: Seq<u8>, b: Seq<u8>, c: Seq<u8>)
    ensures
        (a + b + c).subrange(a.len() as int, (a.len() + b.len()) as int) == b,
{
    assert((a + b + c).subrange(a.len() as int, (a.len() + b.len()) as int) =~= b);
}

/// A frame is read back as its payload, past its texts and fields.
pub proof fn lemma_frame_read(parts: FrameParts, marker: Seq<u8>)
    requires
        parts.ok(marker),
    ensures
        frame_payload(
            parts.bytes(marker),
            marker,
            parts.texts.len(),
            parts.fields.len() as int,
        ) == Ok::<Seq<u8>, FrameError>(parts.payload),
{
    let bytes = parts.bytes(marker);
    let texts = texts_bytes(parts.texts);
    let four = four_bytes(parts.payload.len());
    let m = parts.before.len() as int;
    let f = |i: int|
        if stands_at(bytes, marker, i) {
            Some(i)
        } else {
            None
        };
    let tail1 = texts + parts.fields + four + parts.payload + parts.after;
    assert(bytes =~= parts.before + marker + tail1);
    lemma_middle(parts.before, marker, tail1);
    assert forall|i: int| 0 <= i < m implies #[trigger] f(i) is None by {
        if i + marker.len() <= bytes.len() {
            assert(bytes.subrange(i, i + marker.len()) != marker);
        }
    }
    assert(four.len() == 4);
    lemma_first_some_at(bytes.len(), f, m, m);
    assert(marker_at(bytes, marker) == Some(m));
    let from = m + marker.len();
    let tail2 = parts.fields + four + parts.payload + parts.after;
    assert(bytes =~= (parts.before + marker) + texts + tail2);
    lemma_middle(parts.before + marker, texts, tail2);
    lemma_texts_passed(bytes, from, parts.texts);
    let at = from + texts.len() + parts.fields.len();
    let head = parts.before + marker + texts + parts.fields;
    assert(bytes =~= head + four + (parts.payload + parts.after));
    lemma_middle(head, four, parts.payload + parts.after);
    assert(bytes =~= (head + four) + parts.payload + parts.after);
    lemma_middle(head + four, parts.payload, parts.after);
    lemma_payload_there(bytes, at, parts.payload);
}

/// Listed frames are read back one after the other.
proof fn lemma_run_read(bytes: Seq<u8>, frames: Seq<Seq<u8>>, more: Seq<u8>, n: nat)
    requires
        is_list(bytes, frames, more),
        n <= frames.len(),
    ensures
        listed(frames, n).len() <= listed(frames, frames.len()).len(),
        bytes.subrange(4, 4 + listed(frames, n).len() as int) == listed(frames, n),
        payload_run(bytes, n) == Ok::<(Seq<Seq<u8>>, int), FrameError>(
            (frames.take(n as int), 4 + listed(frames, n).len() as int),
        ),
    decreases n,
{
    let all = listed(frames, frames.len());
    lemma_listed_prefix(frames, n, frames.len());
    assert(four_bytes(frames.len()).len() == 4);
    assert(bytes.subrange(4, 4 + listed(frames, n).len() as int) =~= listed(frames, n)) by {
        let some = listed(frames, n);
        assert forall|i: int| 0 <= i < some.len() implies bytes[4 + i] == some[i] by {
            assert(all.subrange(0, some.len() as int)[i] == some[i]);
        }
    }
    if n == 0 {
        assert(frames.take(0) =~= Seq::empty());
    } else {
        let k = (n - 1) as nat;
        lemma_run_read(bytes, frames, more, k);
        let before = listed(frames, k);
        let here = listed(frames, n);
        let f = frames[n - 1];
        let at: int = 4 + before.len() as int;
        let got = bytes.subrange(4, 4 + here.len() as int);
        assert(here == before + four_bytes(f.len()) + f);
        assert(four_bytes(f.len()).len() == 4);
        assert(bytes.subrange(at, at + 4) =~= four_bytes(f.len())) by {
            assert forall|i: int| 0 <= i < 4 implies bytes[at + i] == four_bytes(f.len())[i] by {
                assert(got[before.len() + i] == here[before.len() + i]);
            }
        }
        assert(bytes.subrange(at + 4, at + 4 + f.len()) =~= f) by {
            assert forall|i: int| 0 <= i < f.len() implies bytes[at + 4 + i] == f[i] by {
                assert(got[before.len() + 4 + i] == here[before.len() + 4 + i]);
            }
        }
        lemma_payload_there(bytes, at, f);
        assert(frames.take(k as int).push(f) =~= frames.take(n as int));
    }
}

/// What is listed first stays first.
proof fn lemma_listed_prefix(frames: Seq<Seq<u8>>, a: nat, b: nat)
    requires
        a <= b,
    ensures
        listed(frames, a).len() <= listed(frames, b).len(),
        listed(frames, b).subrange(0, listed(frames, a).len() as int) == listed(frames, a),
    decreases b,
{
    let some = listed(frames, a);
    if a < b {
        let c = (b - 1) as nat;
        lemma_listed_prefix(frames, a, c);
        let mid = listed(frames, c);
        assert forall|i: int| 0 <= i < some.len() implies listed(frames, b)[i] == some[i] by {
            assert(mid.subrange(0, some.len() as int)[i] == some[i]);
        }
    }
    assert(listed(frames, b).subrange(0, some.len() as int) =~= some);
}

/// A counted list is read back, whatever follows it.
pub proof fn lemma_list_read(bytes: Seq<u8>, frames: Seq<Seq<u8>>, more: Seq<u8>)
    requires
        is_list(bytes, frames, more),
    ensures
        payload_list(bytes, false) == Ok::<Seq<Seq<u8>>, FrameError>(frames),
        payload_list(bytes, true) == (if more.len() == 0 {
            Ok::<Seq<Seq<u8>>, FrameError>(frames)
        } else {
            Err::<Seq<Seq<u8>>, FrameError>(FrameError::Trailing)
        }),
{
    let n = frames.len();
    lemma_four_bytes(n);
    let four = four_bytes(n);
    assert(bytes[0] == four[0] && bytes[1] == four[1] && bytes[2] == four[2] && bytes[3]
        == four[3]);
    lemma_run_read(bytes, frames, more, n);
    assert(frames.take(n as int) =~= frames);
}

/// The payloads before payload `i` end where it starts.
proof fn lemma_offset_monotone(payloads: Seq<Seq<u8>>, a: nat, b: nat)
    requires
        a <= b,
    ensures
        0 <= offset_of(payloads, a) <= offset_of(payloads, b),
    decreases b,
{
    if a < b {
        lemma_offset_monotone(payloads, a, (b - 1) as nat);
    } else if a > 0 {
        lemma_offset_monotone(payloads, (a - 1) as nat, (a - 1) as nat);
    }
}

/// Marginal frames give their payloads, every one, in order.
proof fn lemma_marginals_joined(
    frames: Seq<Seq<u8>>,
    marker: Seq<u8>,
    payloads: Seq<Seq<u8>>,
    n: nat,
)
    requires
        n <= payloads.len(),
        forall|i: int|
            0 <= i < payloads.len() ==> frame_payload(#[trigger] frames[i], marker, 3, 0) == Ok::<
                Seq<u8>,
                FrameError,
            >(payloads[i]),
    ensures
        marginal_payloads(frames, marker, n) is Ok,
        laid_out(
            marginal_payloads(frames, marker, n)->Ok_0,
            payloads.take(n as int),
            Seq::empty(),
        ),
    decreases n,
{
    let some = payloads.take(n as int);
    if n > 0 {
        let k = (n - 1) as nat;
        lemma_marginals_joined(frames, marker, payloads, k);
        let less = payloads.take(k as int);
        let head = marginal_payloads(frames, marker, k)->Ok_0;
        let p = payloads[n - 1];
        assert(frame_payload(frames[n - 1], marker, 3, 0) == Ok::<Seq<u8>, FrameError>(p));
        let out = marginal_payloads(frames, marker, n)->Ok_0;
        assert(out == head + p);
        lemma_offset_same(less, some, k);
        assert(some[n - 1] == p);
        assert(offset_of(some, n) == offset_of(some, k) + p.len());
        assert forall|i: int, j: int|
            0 <= i < some.len() && 0 <= j < some[i].len() implies out[offset_of(some, i as nat) + j]
            == #[trigger] some[i][j] by {
            if i < k {
                lemma_offset_same(less, some, i as nat);
                lemma_offset_monotone(less, i as nat, i as nat);
                lemma_offset_monotone(less, (i + 1) as nat, k);
                assert(less[i][j] == some[i][j]);
                assert(offset_of(less, (i + 1) as nat) == offset_of(less, i as nat)
                    + less[i].len());
            }
        }
    }
}

/// Offsets depend on the payloads before.
proof fn lemma_offset_same(a: Seq<Seq<u8>>, b: Seq<Seq<u8>>, n: nat)
    requires
        n <= a.len(),
        n <= b.len(),
        forall|i: int| 0 <= i < n ==> a[i] == b[i],
    ensures
        offset_of(a, n) == offset_of(b, n),
    decreases n,
{
    if n > 0 {
        lemma_offset_same(a, b, (n - 1) as nat);
    }
}

/// There is one way to lay payloads out.
proof fn lemma_laid_out_once(a: Seq<u8>, b: Seq<u8>, payloads: Seq<Seq<u8>>, last: Seq<u8>)
    requires
        laid_out(a, payloads, last),
        laid_out(b, payloads, last),
    ensures
        a == b,
{
    let end = offset_of(payloads, payloads.len());
    assert forall|x: int| 0 <= x < a.len() implies a[x] == b[x] by {
        if x >= end {
            assert(a[end + (x - end)] == last[x - end]);
        } else {
            let i = lemma_payload_of(payloads, payloads.len(), x);
            let j = x - offset_of(payloads, i as nat);
            assert(a[offset_of(payloads, i as nat) + j] == payloads[i][j]);
        }
    }
    assert(a =~= b);
}

/// The payload that a position falls in.
proof fn lemma_payload_of(payloads: Seq<Seq<u8>>, n: nat, x: int) -> (i: int)
    requires
        n <= payloads.len(),
        0 <= x < offset_of(payloads, n),
    ensures
        0 <= i < n,
        offset_of(payloads, i as nat) <= x < offset_of(payloads, i as nat) + payloads[i].len(),
    decreases n,
{
    if n > 0 && x < offset_of(payloads, (n - 1) as nat) {
        lemma_payload_of(payloads, (n - 1) as nat, x)
    } else {
        n - 1
    }
}

/// A part without its marker gives no payload.
pub(crate) proof fn lemma_unmarked(part: Option<Vec<u8>>, marker: Seq<u8>, texts: nat, skip: int)
    requires
        unmarked(part, marker),
    ensures
        part matches Some(v) ==> frame_payload(v@, marker, texts, skip) is Err,
{
    if let Some(v) = part {
        let f = |i: int|
            if stands_at(v@, marker, i) {
                Some(i)
            } else {
                None
            };
        assert forall|i: int| 0 <= i < v@.len() implies #[trigger] f(i) is None by {
            if i + marker.len() <= v@.len() {
                assert(v@.subrange(i, i + marker.len()) != marker);
            }
        }
        lemma_first_some_absent(v@.len(), f);
    }
}

/// A recursive aggregation is bound by its payload, past two texts and 130 bytes of hashes,
/// digests and kinds; whatever else the child holds.
pub proof fn lemma_recursive_child_bound(
    child: Seq<u8>,
    f: ChildFrames,
    m: ChildMarkers,
    parts: FrameParts,
    r: ChildStarkBinding,
)
    requires
        is_binding(r, child, f, m),
        f.rec matches Some(v) && v@ == parts.bytes(m.rec_agg@),
        parts.ok(m.rec_agg@),
        parts.texts.len() == 2,
        parts.fields.len() == 130,
    ensures
        r.stark_digest@ == sha3_256(parts.payload),
        r.kind == 1,
{
    lemma_frame_read(parts, m.rec_agg@);
}

/// An aggregation is bound by its payload, past two texts and two hashes.
pub proof fn lemma_aggregation_child_bound(
    child: Seq<u8>,
    f: ChildFrames,
    m: ChildMarkers,
    parts: FrameParts,
    r: ChildStarkBinding,
)
    requires
        is_binding(r, child, f, m),
        unmarked(f.rec, m.rec_agg@),
        f.agg matches Some(v) && v@ == parts.bytes(m.agg@),
        parts.ok(m.agg@),
        parts.texts.len() == 2,
        parts.fields.len() == 64,
    ensures
        r.stark_digest@ == sha3_256(parts.payload),
        r.kind == 1,
{
    lemma_unmarked(f.rec, m.rec_agg@, 2, 130);
    lemma_frame_read(parts, m.agg@);
}

/// A Born leaf is bound by its payload, past two texts.
pub proof fn lemma_born_child_bound(
    child: Seq<u8>,
    f: ChildFrames,
    m: ChildMarkers,
    parts: FrameParts,
    r: ChildStarkBinding,
)
    requires
        is_binding(r, child, f, m),
        unmarked(f.rec, m.rec_agg@),
        unmarked(f.agg, m.agg@),
        f.born matches Some(v) && v@ == parts.bytes(m.born@),
        parts.ok(m.born@),
        parts.texts.len() == 2,
        parts.fields.len() == 0,
    ensures
        r.stark_digest@ == sha3_256(parts.payload),
        r.kind == 0,
{
    lemma_unmarked(f.rec, m.rec_agg@, 2, 130);
    lemma_unmarked(f.agg, m.agg@, 2, 64);
    lemma_frame_read(parts, m.born@);
}

/// The marginal frames of a trajectory: three texts and a payload each.
pub open spec fn marginal_frames(parts: Seq<FrameParts>, marker: Seq<u8>) -> Seq<Seq<u8>> {
    Seq::new(parts.len(), |i: int| parts[i].bytes(marker))
}

/// The payloads of frames.
pub open spec fn payloads_of(parts: Seq<FrameParts>) -> Seq<Seq<u8>> {
    Seq::new(parts.len(), |i: int| parts[i].payload)
}

/// A trajectory is bound by every marginal payload in order and then the shot payload: the
/// hashed bytes hold each marginal payload at the offset of the lengths before it, the shot
/// payload behind them, and nothing else.
pub proof fn lemma_trajectory_child_bound(
    child: Seq<u8>,
    f: ChildFrames,
    m: ChildMarkers,
    t: TrajectoryFrames,
    marginals: Seq<FrameParts>,
    more: Seq<u8>,
    shot: FrameParts,
    r: ChildStarkBinding,
    bytes: Seq<u8>,
)
    requires
        is_binding(r, child, f, m),
        unmarked(f.rec, m.rec_agg@),
        unmarked(f.agg, m.agg@),
        unmarked(f.born, m.born@),
        f.trajectory == Some(t),
        is_list(t.marginals@, marginal_frames(marginals, m.traj_marginal@), more),
        forall|i: int|
            0 <= i < marginals.len() ==> {
                &&& (#[trigger] marginals[i]).ok(m.traj_marginal@)
                &&& marginals[i].texts.len() == 3
                &&& marginals[i].fields.len() == 0
            },
        t.shot@ == shot.bytes(m.traj_shot@),
        shot.ok(m.traj_shot@),
        shot.texts.len() == 1,
        shot.fields.len() == 20,
        laid_out(bytes, payloads_of(marginals), shot.payload),
    ensures
        laid_out(bound_bytes(child, f, m).0, payloads_of(marginals), shot.payload),
        r.stark_digest@ == sha3_256(bytes),
        r.kind == 0,
{
    lemma_unmarked(f.rec, m.rec_agg@, 2, 130);
    lemma_unmarked(f.agg, m.agg@, 2, 64);
    lemma_unmarked(f.born, m.born@, 2, 0);
    let marker = m.traj_marginal@;
    let frames = marginal_frames(marginals, marker);
    let payloads = payloads_of(marginals);
    let n = marginals.len();
    lemma_list_read(t.marginals@, frames, more);
    assert forall|i: int| 0 <= i < n implies frame_payload(#[trigger] frames[i], marker, 3, 0)
        == Ok::<Seq<u8>, FrameError>(payloads[i]) by {
        assert(marginals[i].ok(marker));
        lemma_frame_read(marginals[i], marker);
    }
    lemma_marginals_joined(frames, marker, payloads, n);
    assert(payloads.take(n as int) =~= payloads);
    lemma_frame_read(shot, m.traj_shot@);
    let head = marginal_payloads(frames, marker, n)->Ok_0;
    let out = head + shot.payload;
    assert(trajectory_payload(t, m) == Ok::<Seq<u8>, FrameError>(out));
    assert(laid_out(out, payloads, shot.payload)) by {
        assert forall|i: int, j: int|
            0 <= i < n && 0 <= j < payloads[i].len() implies out[offset_of(payloads, i as nat) + j]
            == #[trigger] payloads[i][j] by {
            lemma_offset_monotone(payloads, i as nat, i as nat);
            lemma_offset_monotone(payloads, (i + 1) as nat, n);
            assert(offset_of(payloads, (i + 1) as nat) == offset_of(payloads, i as nat)
                + payloads[i].len());
            assert(head[offset_of(payloads, i as nat) + j] == payloads[i][j]);
        }
    }
    assert(bound_bytes(child, f, m).0 == out);
    lemma_laid_out_once(bytes, out, payloads, shot.payload);
}

/// A child whose frames hold no proof is bound whole, a composition as an aggregation and
/// anything else as a leaf, unless it is a unitary leaf, which is bound by its proof.
pub proof fn lemma_other_child_bound(
    child: Seq<u8>,
    f: ChildFrames,
    m: ChildMarkers,
    r: ChildStarkBinding,
)
    requires
        is_binding(r, child, f, m),
        unmarked(f.rec, m.rec_agg@),
        unmarked(f.agg, m.agg@),
        unmarked(f.born, m.born@),
        f.trajectory is None,
    ensures
        f.composed ==> r.stark_digest@ == sha3_256(child) && r.kind == 1,
        !f.composed && f.leaf is None ==> r.stark_digest@ == sha3_256(child) && r.kind == 0,
        !f.composed ==> (f.leaf matches Some(v) ==> r.stark_digest@ == sha3_256(v@) && r.kind
            == 0),
{
    lemma_unmarked(f.rec, m.rec_agg@, 2, 130);
    lemma_unmarked(f.agg, m.agg@, 2, 64);
    lemma_unmarked(f.born, m.born@, 2, 0);
}

} // verus!
