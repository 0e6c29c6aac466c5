//! Length-prefixed payloads inside marked byte frames.
use vstd::prelude::*;

use crate::checks::{first_some, lemma_first_some_stops};

verus! {

/// Why a frame could not be read.
#[derive(Debug, Clone, Copy, PartialEq, Eq)]
pub enum FrameError {
    /// The marker does not occur.
    Marker,
    /// The binding fields end too early.
    Fields,
    /// The length prefix is cut off.
    Length,
    /// The payload is cut off.
    Payload,
    /// Bytes are left over.
    Trailing,
}

/// `part` stands at position `at` of `bytes`.
pub open spec fn stands_at(bytes: Seq<u8>, part: Seq<u8>, at: int) -> bool {
    0 <= at && at + part.len() <= bytes.len() && bytes.subrange(at, at + part.len()) == part
}

/// The first position of a marker.
pub open spec fn marker_at(bytes: Seq<u8>, marker: Seq<u8>) -> Option<int> {
    first_some(
        bytes.len(),
        |i: int|
            if stands_at(bytes, marker, i) {
                Some(i)
            } else {
                None
            },
    )
}

/// The position after the first zero byte at or after `from`.
pub open spec fn after_zero(bytes: Seq<u8>, from: int) -> Option<int> {
    first_some(
        bytes.len(),
        |i: int|
            if from <= i && bytes[i] == 0 {
                Some(i + 1)
            } else {
                None
            },
    )
}

/// The position after `k` zero-terminated texts.
pub open spec fn after_texts(bytes: Seq<u8>, from: int, k: nat) -> Option<int>
    decreases k,
{
    if k == 0 {
        Some(from)
    } else {
        match after_texts(bytes, from, (k - 1) as nat) {
            Some(p) => after_zero(bytes, p),
            None => None,
        }
    }
}

/// The little-endian number at `at`.
pub open spec fn number_at(bytes: Seq<u8>, at: int) -> int {
    bytes[at] + 0x100 * bytes[at + 1] + 0x1_0000 * bytes[at + 2] + 0x100_0000 * bytes[at + 3]
}

/// The payload whose length stands at `at`.
pub open spec fn payload_at(bytes: Seq<u8>, at: int) -> Result<Seq<u8>, FrameError> {
    if at + 4 > bytes.len() {
        Err(FrameError::Length)
    } else if at + 4 + number_at(bytes, at) > bytes.len() {
        Err(FrameError::Payload)
    } else {
        Ok(bytes.subrange(at + 4, at + 4 + number_at(bytes, at)))
    }
}

/// The payload of a frame: after the marker, `texts` zero-terminated texts and `skip` bytes.
pub open spec fn frame_payload(
    bytes: Seq<u8>,
    marker: Seq<u8>,
    texts: nat,
    skip: int,
) -> Result<Seq<u8>, FrameError> {
    match marker_at(bytes, marker) {
        None => Err(FrameError::Marker),
        Some(m) => match after_texts(bytes, m + marker.len(), texts) {
            None => Err(FrameError::Fields),
            Some(p) => payload_at(bytes, p + skip),
        },
    }
}

/// Payloads one after the other from position 4 on, and where they end.
pub open spec fn payload_run(bytes: Seq<u8>, n: nat) -> Result<(Seq<Seq<u8>>, int), FrameError>
    decreases n,
{
    if n == 0 {
        Ok((Seq::empty(), 4))
    } else {
        match payload_run(bytes, (n - 1) as nat) {
            Err(e) => Err(e),
            Ok((s, at)) => match payload_at(bytes, at) {
                Err(e) => Err(e),
                Ok(p) => Ok((s.push(p), at + 4 + p.len())),
            },
        }
    }
}

/// A counted list of payloads. Where it must be exact, no byte may be left over.
pub open spec fn payload_list(bytes: Seq<u8>, exact: bool) -> Result<Seq<Seq<u8>>, FrameError> {
    if bytes.len() < 4 {
        Err(FrameError::Length)
    } else {
        match payload_run(bytes, number_at(bytes, 0) as nat) {
            Err(e) => Err(e),
            Ok((s, at)) => if exact && at != bytes.len() {
                Err(FrameError::Trailing)
            } else {
                Ok(s)
            },
        }
    }
}

/// The views of a list of byte strings.
pub open spec fn byte_lists(v: Seq<Vec<u8>>) -> Seq<Seq<u8>> {
    Seq::new(v.len(), |i: int| v[i]@)
}

/// `r` is the outcome `want`, byte for byte.
pub open spec fn same_bytes_outcome(
    r: Result<Vec<u8>, FrameError>,
    want: Result<Seq<u8>, FrameError>,
) -> bool {
    match want {
        Ok(s) => r matches Ok(v) && v@ == s,
        Err(e) => r == Err::<Vec<u8>, FrameError>(e),
    }
}

/// The bytes from `a` up to `b`.
fn copy_part(bytes: &[u8], a: usize, b: usize) -> (r: Vec<u8>)
    requires
        a <= b <= bytes@.len(),
    ensures
        r@ == bytes@.subrange(a as int, b as int),
{
    let mut r: Vec<u8> = Vec::new();
    let mut i: usize = a;
    while i < b
        invariant
            a <= i <= b <= bytes@.len(),
            r@ == bytes@.subrange(a as int, i as int),
        decreases b - i,
    {
        r.push(bytes[i]);
        i += 1;
        proof {
            assert(r@ =~= bytes@.subrange(a as int, i as int));
        }
    }
    r
}

/// Whether `part` stands at `at`.
fn part_at(bytes: &[u8], part: &[u8], at: usize) -> (r: bool)
    requires
        at <= bytes@.len(),
    ensures
        r == stands_at(bytes@, part@, at as int),
{
    if part.len() > bytes.len() - at {
        return false;
    }
    let n: usize = bytes.len();
    let mut i: usize = 0;
    while i < part.len()
        invariant
            i <= part.len(),
            n == bytes@.len(),
            at + part@.len() <= n,
            forall|j: int| 0 <= j < i ==> bytes@[at + j] == #[trigger] part@[j],
        decreases part.len() - i,
    {
        if bytes[at + i] != part[i] {
            proof {
                assert(bytes@.subrange(at as int, at + part@.len())[i as int] != part@[i as int]);
            }
            return false;
        }
        i += 1;
    }
    proof {
        assert(bytes@.subrange(at as int, at + part@.len()) =~= part@);
    }
    true
}

/// The first position of a marker.
fn find_marker(bytes: &[u8], marker: &[u8]) -> (r: Option<usize>)
    ensures
        match marker_at(bytes@, marker@) {
            Some(p) => r matches Some(x) && x == p && p + marker@.len() <= bytes@.len(),
            None => r is None,
        },
{
    let ghost f = |i: int|
        if stands_at(bytes@, marker@, i) {
            Some(i)
        } else {
            None
        };
    let mut i: usize = 0;
    while i < bytes.len()
        invariant
            i <= bytes.len(),
            f == (|i: int|
                if stands_at(bytes@, marker@, i) {
                    Some(i)
                } else {
                    None
                }),
            first_some(i as nat, f) is None,
        decreases bytes.len() - i,
    {
        proof {
            assert(first_some((i + 1) as nat, f) == f(i as int));
        }
        if part_at(bytes, marker, i) {
            proof {
                lemma_first_some_stops((i + 1) as nat, bytes@.len(), f);
            }
            return Some(i);
        }
        i += 1;
    }
    None
}

/// The position after the first zero byte at or after `from`.
fn skip_text(bytes: &[u8], from: usize) -> (r: Option<usize>)
    ensures
        match after_zero(bytes@, from as int) {
            Some(p) => r matches Some(x) && x == p && p <= bytes@.len(),
            None => r is None,
        },
{
    let ghost f = |i: int|
        if from <= i && bytes@[i] == 0 {
            Some(i + 1)
        } else {
            None
        };
    let mut i: usize = 0;
    while i < bytes.len()
        invariant
            i <= bytes.len(),
            f == (|i: int|
                if from <= i && bytes@[i] == 0 {
                    Some(i + 1)
                } else {
                    None
                }),
            first_some(i as nat, f) is None,
        decreases bytes.len() - i,
    {
        proof {
            assert(first_some((i + 1) as nat, f) == f(i as int));
        }
        if from <= i && bytes[i] == 0 {
            proof {
                lemma_first_some_stops((i + 1) as nat, bytes@.len(), f);
            }
            return Some(i + 1);
        }
        i += 1;
    }
    None
}

/// The little-endian number at `at`.
fn read_u32_le(bytes: &[u8], at: usize) -> (r: u32)
    requires
        at + 4 <= bytes@.len(),
    ensures
        r == number_at(bytes@, at as int),
{
    bytes[at] as u32 + 0x100 * (bytes[at + 1] as u32) + 0x1_0000 * (bytes[at + 2] as u32)
        + 0x100_0000 * (bytes[at + 3] as u32)
}

/// The payload whose length stands at `at`.
fn read_payload(bytes: &[u8], at: usize) -> (r: Result<Vec<u8>, FrameError>)
    ensures
        same_bytes_outcome(r, payload_at(bytes@, at as int)),
        r matches Ok(v) ==> at + 4 + v@.len() <= bytes@.len(),
{
    if bytes.len() < 4 || at > bytes.len() - 4 {
        return Err(FrameError::Length);
    }
    let n: u32 = read_u32_le(bytes, at);
    let left: usize = bytes.len() - at - 4;
    if n as u64 > left as u64 {
        return Err(FrameError::Payload);
    }
    Ok(copy_part(bytes, at + 4, at + 4 + n as usize))
}

/// Reads the payload of a frame: after the marker, `texts` zero-terminated texts and `skip`
/// bytes.
pub fn read_frame(bytes: &[u8], marker: &[u8], texts: usize, skip: usize) -> (r: Result<
    Vec<u8>,
    FrameError,
>)
    ensures
        same_bytes_outcome(r, frame_payload(bytes@, marker@, texts as nat, skip as int)),
{
    let m: usize = match find_marker(bytes, marker) {
        Some(p) => p,
        None => {
            return Err(FrameError::Marker);
        },
    };
    let ghost start = m + marker@.len();
    let total: usize = bytes.len();
    proof {
        assert(start <= total);
    }
    let mut at: usize = m + marker.len();
    let mut k: usize = 0;
    while k < texts
        invariant
            k <= texts,
            at <= bytes@.len(),
            marker_at(bytes@, marker@) == Some(m as int),
            start == m + marker@.len(),
            after_texts(bytes@, start, k as nat) == Some(at as int),
        decreases texts - k,
    {
        match skip_text(bytes, at) {
            Some(p) => {
                at = p;
            },
            None => {
                proof {
                    lemma_texts_end(bytes@, start, (k + 1) as nat, texts as nat);
                }
                return Err(FrameError::Fields);
            },
        }
        k += 1;
    }
    if skip > bytes.len() - at {
        return Err(FrameError::Length);
    }
    read_payload(bytes, at + skip)
}

/// Once texts run out they stay so.
proof fn lemma_texts_end(bytes: Seq<u8>, from: int, a: nat, b: nat)
    requires
        a <= b,
        after_texts(bytes, from, a) is None,
    ensures
        after_texts(bytes, from, b) is None,
    decreases b,
{
    if a < b {
        lemma_texts_end(bytes, from, a, (b - 1) as nat);
    }
}

/// Once a run of payloads fails it stays so.
proof fn lemma_run_ends(bytes: Seq<u8>, a: nat, b: nat)
    requires
        a <= b,
        payload_run(bytes, a) is Err,
    ensures
        payload_run(bytes, b) == payload_run(bytes, a),
    decreases b,
{
    if a < b {
        lemma_run_ends(bytes, a, (b - 1) as nat);
    }
}

/// Reads a counted list of payloads. Where it must be exact, no byte may be left over.
pub fn read_payload_list(bytes: &[u8], exact: bool) -> (r: Result<Vec<Vec<u8>>, FrameError>)
    ensures
        match payload_list(bytes@, exact) {
            Ok(s) => r matches Ok(v) && byte_lists(v@) == s,
            Err(e) => r == Err::<Vec<Vec<u8>>, FrameError>(e),
        },
{
    if bytes.len() < 4 {
        return Err(FrameError::Length);
    }
    let n: u32 = read_u32_le(bytes, 0);
    let total: usize = bytes.len();
    let mut out: Vec<Vec<u8>> = Vec::new();
    let mut at: usize = 4;
    let mut k: u32 = 0;
    proof {
        assert(byte_lists(out@) =~= Seq::empty());
    }
    while k < n
        invariant
            k <= n,
            total == bytes@.len(),
            4 <= at <= total,
            n == number_at(bytes@, 0),
            payload_run(bytes@, k as nat) == Ok::<(Seq<Seq<u8>>, int), FrameError>(
                (byte_lists(out@), at as int),
            ),
        decreases n - k,
    {
        let ghost before = out@;
        match read_payload(bytes, at) {
            Ok(p) => {
                let len: usize = p.len();
                out.push(p);
                proof {
                    assert(byte_lists(out@) =~= byte_lists(before).push(p@));
                }
                at = at + 4 + len;
            },
            Err(e) => {
                proof {
                    lemma_run_ends(bytes@, (k + 1) as nat, n as nat);
                }
                return Err(e);
            },
        }
        k += 1;
    }
    if exact && at != bytes.len() {
        return Err(FrameError::Trailing);
    }
    Ok(out)
}

/// A length prefix and a payload, written one after the other, read back as the payload.
pub proof fn lemma_payload_roundtrip(before: Seq<u8>, prefix: Seq<u8>, payload: Seq<u8>, after: Seq<u8>)
    requires
        prefix.len() == 4,
        number_at(prefix, 0) == payload.len(),
    ensures
        payload_at(before + prefix + payload + after, before.len() as int) == Ok::<
            Seq<u8>,
            FrameError,
        >(payload),
{
    let all = before + prefix + payload + after;
    let at = before.len() as int;
    assert(all[at] == prefix[0] && all[at + 1] == prefix[1]);
    assert(all[at + 2] == prefix[2] && all[at + 3] == prefix[3]);
    assert(all.subrange(at + 4, at + 4 + payload.len()) =~= payload);
}

} // verus!
