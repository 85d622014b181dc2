//! Perceptual fingerprints (dHash) and the greedy clustering that groups
//! visually identical images and videos.
//!
//! A dHash compares each pixel of a 9x8 grayscale thumbnail with its right
//! neighbour, giving 64 bits. Two fingerprints are close when few bits differ.
//! Clustering walks the items in order: an item that no earlier group claimed
//! starts a group and claims every later unclaimed item within the threshold.

use vstd::prelude::*;
use vstd::arithmetic::power2::pow2;

verus! {

/// Bits that can differ and still be considered "same image". 0-64.
pub const IMAGE_THRESHOLD: u32 = 8;

/// Average per-frame bits that can differ for "same video".
pub const VIDEO_THRESHOLD: u32 = 10;

/// Frames sampled per video (evenly spaced across the full duration).
pub const VIDEO_FRAME_SAMPLES: u32 = 16;

/// Number of set bits of `x`.
pub open spec fn popcount(x: nat) -> nat
    decreases x,
{
    if x == 0 {
        0
    } else {
        (x % 2) + popcount(x / 2)
    }
}

pub proof fn lemma_popcount_bound(x: nat, k: nat)
    requires
        x < pow2(k),
    ensures
        popcount(x) <= k,
    decreases k,
{
    if k == 0 {
        vstd::arithmetic::power2::lemma2_to64();
        assert(x == 0);
    } else {
        vstd::arithmetic::power2::lemma_pow2_unfold(k);
        assert(x / 2 < pow2((k - 1) as nat));
        lemma_popcount_bound(x / 2, (k - 1) as nat);
    }
}

/// 64-bit perceptual hash.
#[derive(Debug, Clone, Copy, PartialEq, Eq, Structural)]
pub struct DHash(pub u64);

/// Hamming distance between two hashes.
pub open spec fn hamming(a: DHash, b: DHash) -> nat {
    popcount((a.0 ^ b.0) as nat)
}

impl DHash {
    /// Hamming distance: the number of differing bits (0 = identical).
    pub fn dist(self, other: DHash) -> (d: u32)
        ensures
            d == hamming(self, other),
            d <= 64,
    {
        let x0: u64 = self.0 ^ other.0;
        let mut x: u64 = x0;
        let mut count: u32 = 0;
        proof {
            vstd::arithmetic::power2::lemma2_to64();
            lemma_popcount_bound(x0 as nat, 64);
        }
        while x != 0
            invariant
                count + popcount(x as nat) == popcount(x0 as nat),
                popcount(x0 as nat) <= 64,
            decreases x,
        {
            count = count + (x % 2) as u32;
            x = x / 2;
        }
        count
    }
}

proof fn lemma_popcount_zero(x: nat)
    ensures
        (popcount(x) == 0) == (x == 0),
    decreases x,
{
    if x > 0 {
        lemma_popcount_zero(x / 2);
    }
}

proof fn lemma_popcount_triangle(a: u64, b: u64, c: u64)
    ensures
        popcount((a ^ c) as nat) <= popcount((a ^ b) as nat) + popcount((b ^ c) as nat),
    decreases a as nat + b as nat + c as nat,
{
    if !(a == 0 && b == 0 && c == 0) {
        let a2 = a / 2;
        let b2 = b / 2;
        let c2 = c / 2;
        assert((a ^ c) / 2 == a2 ^ c2 && (a ^ b) / 2 == a2 ^ b2 && (b ^ c) / 2 == b2 ^ c2) by (bit_vector)
            requires a2 == a / 2, b2 == b / 2, c2 == c / 2;
        assert((a ^ c) % 2 <= (a ^ b) % 2 + (b ^ c) % 2) by (bit_vector);
        lemma_popcount_triangle(a2, b2, c2);
    }
}

/// The Hamming distance is a metric on hashes: it is at most 64, symmetric, zero
/// exactly for equal hashes, and obeys the triangle inequality.
pub proof fn law_hamming_metric(a: DHash, b: DHash, c: DHash)
    ensures
        hamming(a, b) <= 64,
        hamming(a, b) == hamming(b, a),
        (hamming(a, b) == 0) == (a == b),
        hamming(a, c) <= hamming(a, b) + hamming(b, c),
{
    vstd::arithmetic::power2::lemma2_to64();
    lemma_popcount_bound((a.0 ^ b.0) as nat, 64);
    let (x, y) = (a.0, b.0);
    assert(x ^ y == y ^ x) by (bit_vector);
    assert((x ^ y == 0) == (x == y)) by (bit_vector);
    lemma_popcount_zero((x ^ y) as nat);
    lemma_popcount_triangle(a.0, b.0, c.0);
}

/// The comparison of a 9x8 thumbnail that decides bit `k` of its dHash: the pixel
/// at row `k / 8`, column `k % 8` is brighter than its right neighbour.
pub open spec fn dhash_bit(raw: Seq<u8>, k: int) -> bool {
    raw[(k / 8) * 9 + k % 8] > raw[(k / 8) * 9 + k % 8 + 1]
}

/// The value made of bits `0..k` of the dHash of `raw`.
pub open spec fn dhash_prefix(raw: Seq<u8>, k: nat) -> nat
    decreases k,
{
    if k == 0 {
        0
    } else {
        dhash_prefix(raw, (k - 1) as nat) + (if dhash_bit(raw, k - 1) {
            pow2((k - 1) as nat)
        } else {
            0
        })
    }
}

proof fn lemma_dhash_prefix_bound(raw: Seq<u8>, k: nat)
    ensures
        dhash_prefix(raw, k) < pow2(k),
    decreases k,
{
    vstd::arithmetic::power2::lemma_pow2_pos(k);
    if k > 0 {
        vstd::arithmetic::power2::lemma_pow2_unfold(k);
        lemma_dhash_prefix_bound(raw, (k - 1) as nat);
    } else {
        vstd::arithmetic::power2::lemma2_to64();
    }
}

proof fn lemma_dhash_prefix_bit(raw: Seq<u8>, m: nat, k: nat)
    requires
        k < m,
    ensures
        (dhash_prefix(raw, m) / pow2(k)) % 2 == (if dhash_bit(raw, k as int) { 1nat } else { 0nat }),
    decreases m,
{
    let p = pow2(k);
    vstd::arithmetic::power2::lemma_pow2_pos(k);
    let b: nat = if dhash_bit(raw, k as int) { 1 } else { 0 };
    if m == k + 1 {
        lemma_dhash_prefix_bound(raw, k);
        let x = dhash_prefix(raw, m);
        assert(x == dhash_prefix(raw, k) + b * p);
        vstd::arithmetic::div_mod::lemma_fundamental_div_mod_converse(
            x as int,
            p as int,
            b as int,
            dhash_prefix(raw, k) as int,
        );
        assert(x / p == b);
    } else {
        lemma_dhash_prefix_bit(raw, (m - 1) as nat, k);
        let x = dhash_prefix(raw, (m - 1) as nat);
        let c: nat = if dhash_bit(raw, m - 1) { 1 } else { 0 };
        let e = (m - 1 - k) as nat;
        vstd::arithmetic::power2::lemma_pow2_adds(k, e);
        assert(pow2((m - 1) as nat) == p * pow2(e));
        vstd::arithmetic::power2::lemma_pow2_unfold(e);
        let w = pow2((e - 1) as nat);
        assert(pow2(e) == 2 * w);
        let q = x / p;
        let r = x % p;
        vstd::arithmetic::div_mod::lemma_fundamental_div_mod(x as int, p as int);
        let y = dhash_prefix(raw, m);
        assert(y == x + c * pow2((m - 1) as nat));
        assert(y == (q + c * 2 * w) * p + r) by (nonlinear_arith)
            requires
                y == x + c * (p * (2 * w)),
                x == p * q + r;
        vstd::arithmetic::div_mod::lemma_mod_bound(x as int, p as int);
        vstd::arithmetic::div_mod::lemma_fundamental_div_mod_converse(
            y as int,
            p as int,
            (q + c * 2 * w) as int,
            r as int,
        );
        let t = q % 2;
        vstd::arithmetic::div_mod::lemma_fundamental_div_mod(q as int, 2);
        assert(q + c * 2 * w == (q / 2 + c * w) * 2 + t) by (nonlinear_arith)
            requires
                q == 2 * (q / 2) + t;
        vstd::arithmetic::div_mod::lemma_fundamental_div_mod_converse(
            (q + c * 2 * w) as int,
            2,
            (q / 2 + c * w) as int,
            t as int,
        );
    }
}

/// The meaning of a dHash: bit `k` (for `k` below 64) is set exactly when, in the
/// thumbnail, the pixel at row `k / 8`, column `k % 8` is brighter than its right
/// neighbour.
pub proof fn law_dhash_bits(raw: Seq<u8>, k: nat)
    requires
        k < 64,
    ensures
        ((dhash_prefix(raw, 64) / pow2(k)) % 2 == 1) == (raw[((k / 8) * 9 + k % 8) as int] > raw[((k / 8) * 9 + k % 8
            + 1) as int]),
{
    lemma_dhash_prefix_bit(raw, 64, k);
}

/// Builds the dHash of a 72-byte (9x8) row-major grayscale thumbnail.
pub fn dhash_from_raw(raw: &[u8]) -> (h: DHash)
    requires
        raw@.len() >= 72,
    ensures
        h.0 == dhash_prefix(raw@, 64),
        forall|k: nat|
            k < 64 ==> (((h.0 as nat) / #[trigger] pow2(k)) % 2 == 1) == (raw@[((k / 8) * 9 + k % 8) as int]
                > raw@[((k / 8) * 9 + k % 8 + 1) as int]),
{
    let mut acc: u128 = 0;
    let mut bit: u128 = 1;
    let mut k: usize = 0;
    proof {
        vstd::arithmetic::power2::lemma2_to64();
    }
    while k < 64
        invariant
            k <= 64,
            raw@.len() >= 72,
            acc == dhash_prefix(raw@, k as nat),
            bit == pow2(k as nat),
            bit <= 0x1_0000_0000_0000_0000,
        decreases 64 - k,
    {
        let row: usize = k / 8;
        let col: usize = k % 8;
        let left = raw[row * 9 + col];
        let right = raw[row * 9 + col + 1];
        proof {
            lemma_dhash_prefix_bound(raw@, k as nat);
            vstd::arithmetic::power2::lemma_pow2_unfold((k + 1) as nat);
            if k + 1 < 64 {
                vstd::arithmetic::power2::lemma_pow2_strictly_increases((k + 1) as nat, 64);
            }
            vstd::arithmetic::power2::lemma2_to64();
        }
        if left > right {
            acc = acc + bit;
        }
        bit = bit * 2;
        k = k + 1;
    }
    proof {
        lemma_dhash_prefix_bound(raw@, 64);
        vstd::arithmetic::power2::lemma2_to64();
        assert forall|k: nat| k < 64 implies (((acc as u64) as nat / #[trigger] pow2(k)) % 2 == 1) == (
        raw@[((k / 8) * 9 + k % 8) as int] > raw@[((k / 8) * 9 + k % 8 + 1) as int]) by {
            law_dhash_bits(raw@, k);
        }
    }
    DHash(acc as u64)
}

/// Bytes of a 9x8 grayscale thumbnail.
pub const THUMBNAIL_BYTES: usize = 72;

/// The thumbnail in a decoder's raw output: its first 72 bytes, or nothing when the
/// output is shorter.
pub fn thumbnail_from_output(out: &Vec<u8>) -> (r: Option<Vec<u8>>)
    ensures
        match r {
            Some(t) => out@.len() >= 72 && t@ == out@.take(72),
            None => out@.len() < 72,
        },
{
    if out.len() < THUMBNAIL_BYTES {
        return None;
    }
    let mut t: Vec<u8> = Vec::new();
    let mut i: usize = 0;
    while i < THUMBNAIL_BYTES
        invariant
            out@.len() >= 72,
            i <= 72,
            t@ == out@.take(i as int),
        decreases 72 - i,
    {
        t.push(out[i]);
        i = i + 1;
        assert(t@ =~= out@.take(i as int));
    }
    Some(t)
}

/// A still image and its perceptual hash.
pub struct ImageFingerprint {
    pub path: String,
    pub hash: DHash,
}

/// Fingerprints an image from the 9x8 grayscale thumbnail decoded from it.
pub fn fingerprint_image(path: &str, raw: &[u8]) -> (f: ImageFingerprint)
    requires
        raw@.len() >= 72,
    ensures
        f.path@ == path@,
        f.hash.0 == dhash_prefix(raw@, 64),
{
    ImageFingerprint { path: path.to_string(), hash: dhash_from_raw(raw) }
}

/// A video and the dHashes of the frames sampled from it, in time order.
pub struct VideoFingerprint {
    pub path: String,
    pub frame_hashes: Vec<DHash>,
}

/// Why a video could not be fingerprinted.
#[derive(Debug, Clone, Copy, PartialEq, Eq, Structural)]
pub enum VideoFingerprintError {
    /// Not one of the sampled frames could be decoded.
    NoFrames,
}

/// The hashes of the decoded frames, skipping those that failed, in order.
pub open spec fn decoded_frame_hashes(frames: Seq<Option<Vec<u8>>>) -> Seq<u64>
    decreases frames.len(),
{
    if frames.len() == 0 {
        seq![]
    } else {
        let prev = decoded_frame_hashes(frames.drop_last());
        match frames.last() {
            Some(raw) => prev.push(dhash_prefix(raw@, 64) as u64),
            None => prev,
        }
    }
}

/// Fingerprints a video from its sampled frames (`None` where a frame could not be
/// decoded): the hash of each decoded frame, in order; an error when none decoded.
pub fn fingerprint_video(path: &str, frames: &Vec<Option<Vec<u8>>>) -> (r: Result<
    VideoFingerprint,
    VideoFingerprintError,
>)
    requires
        forall|i: int|
            0 <= i < frames@.len() ==> (#[trigger] frames@[i] matches Some(raw) ==> raw@.len()
                >= 72),
    ensures
        match r {
            Ok(f) => {
                &&& f.path@ == path@
                &&& f.frame_hashes@.len() == decoded_frame_hashes(frames@).len()
                &&& f.frame_hashes@.len() > 0
                &&& forall|k: int|
                    0 <= k < f.frame_hashes@.len() ==> (#[trigger] f.frame_hashes@[k]).0
                        == decoded_frame_hashes(frames@)[k]
            },
            Err(e) => decoded_frame_hashes(frames@).len() == 0,
        },
{
    let mut hashes: Vec<DHash> = Vec::new();
    let mut i: usize = 0;
    while i < frames.len()
        invariant
            i <= frames@.len(),
            forall|j: int|
                0 <= j < frames@.len() ==> (#[trigger] frames@[j] matches Some(raw) ==> raw@.len()
                    >= 72),
            hashes@.len() == decoded_frame_hashes(frames@.take(i as int)).len(),
            forall|k: int|
                0 <= k < hashes@.len() ==> (#[trigger] hashes@[k]).0 == decoded_frame_hashes(
                    frames@.take(i as int),
                )[k],
        decreases frames@.len() - i,
    {
        assert(frames@.take(i + 1).drop_last() =~= frames@.take(i as int));
        match &frames[i] {
            Some(raw) => {
                let h = dhash_from_raw(raw.as_slice());
                proof {
                    lemma_dhash_prefix_bound(raw@, 64);
                    vstd::arithmetic::power2::lemma2_to64();
                }
                hashes.push(h);
            },
            None => {},
        }
        i = i + 1;
    }
    assert(frames@.take(frames@.len() as int) =~= frames@);
    if hashes.len() == 0 {
        Err(VideoFingerprintError::NoFrames)
    } else {
        Ok(VideoFingerprint { path: path.to_string(), frame_hashes: hashes })
    }
}

/// The frame of a print of `l` frames that stands at the same relative position as
/// frame `i` of a print of `s` frames: frames sample the middles of equal slices of the
/// video, so frame `i` of `s` sits at `(2i + 1) / 2s` of its length.
pub open spec fn aligned_index(i: int, s: int, l: int) -> int {
    ((2 * i + 1) * l) / (2 * s)
}

/// The print with fewer frames (the first when they have as many).
pub open spec fn shorter(a: Seq<DHash>, b: Seq<DHash>) -> Seq<DHash> {
    if a.len() <= b.len() {
        a
    } else {
        b
    }
}

/// The print with more frames (the second when they have as many).
pub open spec fn longer(a: Seq<DHash>, b: Seq<DHash>) -> Seq<DHash> {
    if a.len() <= b.len() {
        b
    } else {
        a
    }
}

/// Sum of the Hamming distances of the first `n` frames of the shorter print `s` to the
/// frames of the longer print `l` at the same relative positions.
pub open spec fn frame_dist_sum(s: Seq<DHash>, l: Seq<DHash>, n: nat) -> nat
    decreases n,
{
    if n == 0 {
        0
    } else {
        frame_dist_sum(s, l, (n - 1) as nat) + hamming(
            s[n - 1],
            l[aligned_index(n - 1, s.len() as int, l.len() as int)],
        )
    }
}

/// The inputs on which `video_distance` runs to completion: the frame counts fit the
/// `u32` count the sum is divided by, and the `u32` sum of the distances does not overflow.
pub open spec fn video_distance_defined(a: Seq<DHash>, b: Seq<DHash>) -> bool {
    let s = shorter(a, b);
    let l = longer(a, b);
    l.len() <= u32::MAX && frame_dist_sum(s, l, s.len()) <= u32::MAX
}

/// Average distance of two videos over the frames of the shorter print, each paired
/// with the frame of the longer print at the same relative position, rounded down
/// (`u32::MAX` when a print has no frames).
pub open spec fn video_dist(a: Seq<DHash>, b: Seq<DHash>) -> int {
    let s = shorter(a, b);
    let l = longer(a, b);
    if s.len() == 0 {
        u32::MAX as int
    } else {
        frame_dist_sum(s, l, s.len()) as int / (s.len() as int)
    }
}

proof fn lemma_aligned_index(i: int, s: int, l: int)
    requires
        0 <= i < s <= l,
    ensures
        0 <= aligned_index(i, s, l) < l,
{
    assert(0 <= (2 * i + 1) * l) by (nonlinear_arith)
        requires
            0 <= i,
            0 <= l,
    ;
    assert((2 * i + 1) * l < l * (2 * s)) by (nonlinear_arith)
        requires
            0 <= i < s,
            0 < l,
    ;
    assert(((2 * i + 1) * l) / (2 * s) < l) by (nonlinear_arith)
        requires
            0 <= (2 * i + 1) * l < l * (2 * s),
            0 < s,
    ;
}

proof fn lemma_frame_dist_sum_monotone(s: Seq<DHash>, l: Seq<DHash>, m: nat, n: nat)
    requires
        m <= n,
    ensures
        frame_dist_sum(s, l, m) <= frame_dist_sum(s, l, n),
    decreases n,
{
    if m < n {
        lemma_frame_dist_sum_monotone(s, l, m, (n - 1) as nat);
    }
}

/// Average Hamming distance between two video fingerprints. Frames are aligned by
/// relative position: each frame of the print with fewer frames is compared with the
/// frame of the other print at the same relative position.
pub fn video_distance(a: &VideoFingerprint, b: &VideoFingerprint) -> (d: u32)
    requires
        video_distance_defined(a.frame_hashes@, b.frame_hashes@),
    ensures
        d == video_dist(a.frame_hashes@, b.frame_hashes@),
        ({
            let fa = a.frame_hashes@;
            let fb = b.frame_hashes@;
            let n = if fa.len() <= fb.len() { fa.len() } else { fb.len() };
            let sum = frame_dist_sum(shorter(fa, fb), longer(fa, fb), n);
            &&& n > 0 ==> d * n <= sum < (d + 1) * n
            &&& n == 0 ==> d == u32::MAX
        }),
{
    proof {
        law_video_dist_mean(a.frame_hashes@, b.frame_hashes@);
    }
    let (s, l) = if a.frame_hashes.len() <= b.frame_hashes.len() {
        (&a.frame_hashes, &b.frame_hashes)
    } else {
        (&b.frame_hashes, &a.frame_hashes)
    };
    let ghost sv = shorter(a.frame_hashes@, b.frame_hashes@);
    let ghost lv = longer(a.frame_hashes@, b.frame_hashes@);
    assert(s@ == sv && l@ == lv);
    let n = s.len();
    if n == 0 {
        return u32::MAX;
    }
    let ln = l.len();
    let mut sum: u32 = 0;
    let mut i: usize = 0;
    while i < n
        invariant
            s@ == sv,
            l@ == lv,
            n == sv.len(),
            ln == lv.len(),
            0 < n <= ln <= u32::MAX,
            i <= n,
            sum == frame_dist_sum(sv, lv, i as nat),
            frame_dist_sum(sv, lv, n as nat) <= u32::MAX,
        decreases n - i,
    {
        proof {
            lemma_frame_dist_sum_monotone(sv, lv, (i + 1) as nat, n as nat);
            lemma_aligned_index(i as int, n as int, ln as int);
            assert((2 * (i as int) + 1) * (ln as int) <= 0x2_0000_0000 * 0x1_0000_0000) by (nonlinear_arith)
                requires
                    0 <= i < n <= ln <= 0xffff_ffff,
            ;
        }
        let p128: u128 = ((2 * (i as u128) + 1) * (ln as u128)) / (2 * (n as u128));
        let p = p128 as usize;
        assert(p == aligned_index(i as int, n as int, ln as int));
        sum = sum + s[i].dist(l[p]);
        i = i + 1;
    }
    sum / (n as u32)
}

proof fn lemma_aligned_same(k: int, l: int)
    requires
        0 <= k,
        0 < l,
    ensures
        aligned_index(k, l, l) == k,
{
    assert((2 * k + 1) * l == k * (2 * l) + l) by (nonlinear_arith);
    vstd::arithmetic::div_mod::lemma_fundamental_div_mod_converse((2 * k + 1) * l, 2 * l, k, l);
}

proof fn lemma_frame_dist_sum_swap(a: Seq<DHash>, b: Seq<DHash>, n: nat)
    requires
        a.len() == b.len(),
        n <= a.len(),
    ensures
        frame_dist_sum(a, b, n) == frame_dist_sum(b, a, n),
    decreases n,
{
    if n > 0 {
        lemma_frame_dist_sum_swap(a, b, (n - 1) as nat);
        let k = n - 1;
        lemma_aligned_same(k, a.len() as int);
        law_hamming_metric(a[k], b[k], a[k]);
    }
}

proof fn lemma_frame_dist_sum_self(a: Seq<DHash>, n: nat)
    requires
        n <= a.len(),
    ensures
        frame_dist_sum(a, a, n) == 0,
    decreases n,
{
    if n > 0 {
        lemma_frame_dist_sum_self(a, (n - 1) as nat);
        let k = n - 1;
        lemma_aligned_same(k, a.len() as int);
        law_hamming_metric(a[k], a[k], a[k]);
    }
}

/// The distance of two videos does not depend on their order, and a video with
/// frames is at distance 0 from itself.
pub proof fn law_video_dist_symmetric(a: Seq<DHash>, b: Seq<DHash>)
    ensures
        video_dist(a, b) == video_dist(b, a),
        a.len() > 0 ==> video_dist(a, a) == 0,
{
    if a.len() == b.len() {
        lemma_frame_dist_sum_swap(a, b, a.len());
    }
    lemma_frame_dist_sum_self(a, a.len());
}

/// Sum of the Hamming distances of the first `n` frames of `a` to the frames of `b` at
/// the same index.
pub open spec fn same_index_sum(a: Seq<DHash>, b: Seq<DHash>, n: nat) -> nat
    decreases n,
{
    if n == 0 {
        0
    } else {
        same_index_sum(a, b, (n - 1) as nat) + hamming(a[n - 1], b[n - 1])
    }
}

proof fn lemma_same_index_sum(a: Seq<DHash>, b: Seq<DHash>, n: nat)
    requires
        a.len() == b.len(),
        n <= a.len(),
    ensures
        frame_dist_sum(a, b, n) == same_index_sum(a, b, n),
    decreases n,
{
    if n > 0 {
        lemma_same_index_sum(a, b, (n - 1) as nat);
        lemma_aligned_same(n - 1, a.len() as int);
    }
}

/// The distance of two videos is the mean, rounded down, of the distances of the
/// frames compared: one for each frame of the print with fewer frames. With as many
/// frames on both sides, frame `k` is compared with frame `k`. A print without frames
/// is at distance `u32::MAX`.
pub proof fn law_video_dist_mean(a: Seq<DHash>, b: Seq<DHash>)
    ensures
        ({
            let n = if a.len() <= b.len() { a.len() } else { b.len() };
            let sum = frame_dist_sum(shorter(a, b), longer(a, b), n);
            n > 0 ==> video_dist(a, b) * n <= sum < (video_dist(a, b) + 1) * n
        }),
        a.len() == b.len() && a.len() > 0 ==> video_dist(a, b) == same_index_sum(a, b, a.len())
            as int / (a.len() as int),
        a.len() == 0 || b.len() == 0 ==> video_dist(a, b) == u32::MAX,
{
    let n = if a.len() <= b.len() { a.len() } else { b.len() };
    let sum = frame_dist_sum(shorter(a, b), longer(a, b), n);
    if n > 0 {
        let q = sum as int / (n as int);
        vstd::arithmetic::div_mod::lemma_fundamental_div_mod(sum as int, n as int);
        vstd::arithmetic::div_mod::lemma_mod_bound(sum as int, n as int);
        assert(q * n <= sum < (q + 1) * n) by (nonlinear_arith)
            requires
                sum == n * q + sum as int % (n as int),
                0 <= sum as int % (n as int) < n,
        ;
    }
    if a.len() == b.len() {
        lemma_same_index_sum(a, b, a.len());
    }
}

proof fn lemma_aligned_stretched(k: int, s: int, r: int)
    requires
        0 <= k < s,
        1 <= r,
    ensures
        aligned_index(k, s, r * s) == k * r + r / 2,
        (k * r + r / 2) / r == k,
        k * r + r / 2 < r * s,
{
    let q = k * r + r / 2;
    vstd::arithmetic::div_mod::lemma_fundamental_div_mod(r, 2);
    assert((2 * k + 1) * (r * s) == q * (2 * s) + s * (r % 2)) by (nonlinear_arith)
        requires
            r == 2 * (r / 2) + r % 2,
            q == k * r + r / 2,
    ;
    assert(0 <= s * (r % 2) < 2 * s) by (nonlinear_arith)
        requires
            0 <= r % 2 < 2,
            s > 0,
    ;
    vstd::arithmetic::div_mod::lemma_fundamental_div_mod_converse((2 * k + 1) * (r * s), 2 * s, q, s * (r % 2));
    vstd::arithmetic::div_mod::lemma_fundamental_div_mod_converse(q, r, k, r / 2);
    assert(q < r * s) by (nonlinear_arith)
        requires
            q == k * r + r / 2,
            r / 2 < r,
            k + 1 <= s,
            r >= 1,
    ;
}

proof fn lemma_stretched_sum_zero(a: Seq<DHash>, b: Seq<DHash>, r: int, n: nat)
    requires
        a.len() > 0,
        r >= 1,
        b.len() == r * a.len(),
        forall|k: int| 0 <= k < b.len() ==> #[trigger] b[k] == a[k / r],
        n <= a.len(),
    ensures
        frame_dist_sum(a, b, n) == 0,
    decreases n,
{
    if n > 0 {
        lemma_stretched_sum_zero(a, b, r, (n - 1) as nat);
        let k = n - 1;
        lemma_aligned_stretched(k, a.len() as int, r);
        assert(b[k * r + r / 2] == a[k]);
        law_hamming_metric(a[k], a[k], a[k]);
    }
}

/// Frames are matched by relative position: a video whose print repeats each frame of
/// another print `r` times in a row (as a print sampled `r` times as densely would) is at
/// distance 0 from it, either way round.
pub proof fn law_video_dist_stretched(a: Seq<DHash>, b: Seq<DHash>, r: int)
    requires
        a.len() > 0,
        r >= 1,
        b.len() == r * a.len(),
        forall|k: int| 0 <= k < b.len() ==> #[trigger] b[k] == a[k / r],
    ensures
        video_dist(a, b) == 0,
        video_dist(b, a) == 0,
{
    assert(a.len() <= b.len()) by (nonlinear_arith)
        requires
            b.len() == r * a.len(),
            r >= 1,
    ;
    lemma_stretched_sum_zero(a, b, r, a.len());
    law_video_dist_symmetric(a, b);
}

// ── Greedy clustering ──────────────────────────────────────────────────────

/// Whether item `j` lies within `t` of every member of `g`.
pub open spec fn fits_all(d: spec_fn(int, int) -> int, t: int, g: Seq<int>, j: int) -> bool {
    forall|x: int| 0 <= x < g.len() ==> d(#[trigger] g[x], j) <= t
}

/// Whether item `j` may join the group `g`: when `pw` (images), it lies within `t` of
/// every member so far; otherwise (videos), within `t` of the group's first member.
pub open spec fn joins(d: spec_fn(int, int) -> int, t: int, pw: bool, g: Seq<int>, j: int) -> bool {
    if pw {
        fits_all(d, t, g, j)
    } else {
        d(g[0], j) <= t
    }
}

/// The group that item `i` starts when the items in `taken` already belong to earlier
/// groups, looking at the items after `i` and before `m` in order: an item joins when
/// no earlier group has it and `joins` holds of it.
pub open spec fn grow(d: spec_fn(int, int) -> int, t: int, pw: bool, taken: Set<int>, i: int, m: int) -> Seq<int>
    decreases m - i,
{
    if m <= i + 1 {
        seq![i]
    } else {
        let g = grow(d, t, pw, taken, i, m - 1);
        if !taken.contains(m - 1) && joins(d, t, pw, g, m - 1) {
            g.push(m - 1)
        } else {
            g
        }
    }
}

/// Among `n` items walked in order, the items that belong to the groups started
/// before item `i` (their starters included).
pub open spec fn taken_before(d: spec_fn(int, int) -> int, t: int, pw: bool, n: int, i: int) -> Set<int>
    decreases i,
{
    if i <= 0 {
        Set::empty()
    } else {
        let tk = taken_before(d, t, pw, n, i - 1);
        if tk.contains(i - 1) {
            tk
        } else {
            let g = grow(d, t, pw, tk, i - 1, n);
            Set::new(|k: int| tk.contains(k) || g.contains(k))
        }
    }
}

/// Summed similarity of the later members of a group to its first member, in 64ths:
/// `64 - distance` for each.
pub open spec fn group_score(d: spec_fn(int, int) -> int, g: Seq<int>) -> int
    decreases g.len(),
{
    if g.len() <= 1 {
        0
    } else {
        group_score(d, g.drop_last()) + 64 - d(g[0], g.last())
    }
}

/// The groups formed by the first `m` of `n` items walked in order: an item that no
/// earlier group has starts a group (see `grow`), which is kept when it has at least
/// two members, with its score and the number of members after the first.
pub open spec fn clusters(d: spec_fn(int, int) -> int, t: int, pw: bool, n: int, m: int) -> Seq<
    (Seq<int>, int, int),
>
    decreases m,
{
    if m <= 0 {
        seq![]
    } else {
        let prev = clusters(d, t, pw, n, m - 1);
        let i = m - 1;
        let tk = taken_before(d, t, pw, n, i);
        let g = grow(d, t, pw, tk, i, n);
        if !tk.contains(i) && g.len() > 1 {
            prev.push((g, group_score(d, g), g.len() - 1))
        } else {
            prev
        }
    }
}

proof fn lemma_push_contains(g: Seq<int>, j: int, k: int)
    ensures
        g.push(j).contains(k) <==> (g.contains(k) || k == j),
{
    if g.contains(k) {
        let x = choose|x: int| 0 <= x < g.len() && g[x] == k;
        assert(g.push(j)[x] == k);
    }
    if k == j {
        assert(g.push(j)[g.len() as int] == k);
    }
}

/// The shape of a growing group: it starts with `i`, the later members come in
/// increasing order, lie between `i` and `m`, belong to no earlier group and lie within
/// `t` of the first member; when `pw`, every two members are within `t` of each other.
proof fn lemma_grow(d: spec_fn(int, int) -> int, t: int, pw: bool, taken: Set<int>, i: int, m: int)
    ensures
        grow(d, t, pw, taken, i, m).len() >= 1,
        grow(d, t, pw, taken, i, m)[0] == i,
        grow(d, t, pw, taken, i, m).len() <= if m > i { m - i } else { 1 },
        forall|k: int|
            1 <= k < grow(d, t, pw, taken, i, m).len() ==> i < #[trigger] grow(d, t, pw, taken, i, m)[k] < m
                && !taken.contains(grow(d, t, pw, taken, i, m)[k]),
        forall|a: int, b: int|
            0 <= a < b < grow(d, t, pw, taken, i, m).len() ==> #[trigger] grow(d, t, pw, taken, i, m)[a]
                < #[trigger] grow(d, t, pw, taken, i, m)[b] && (pw || a == 0 ==> d(
                grow(d, t, pw, taken, i, m)[a],
                grow(d, t, pw, taken, i, m)[b],
            ) <= t),
    decreases m - i,
{
    if m > i + 1 {
        lemma_grow(d, t, pw, taken, i, m - 1);
        let g = grow(d, t, pw, taken, i, m - 1);
        let h = grow(d, t, pw, taken, i, m);
        if !taken.contains(m - 1) && joins(d, t, pw, g, m - 1) {
            assert(h == g.push(m - 1));
            assert forall|k: int| 1 <= k < h.len() implies i < #[trigger] h[k] < m && !taken.contains(
                h[k],
            ) by {
                if k < g.len() {
                    assert(h[k] == g[k]);
                }
            }
            assert forall|a: int, b: int| 0 <= a < b < h.len() implies #[trigger] h[a]
                < #[trigger] h[b] && (pw || a == 0 ==> d(h[a], h[b]) <= t) by {
                assert(h[a] == g[a]);
                if b < g.len() {
                    assert(h[b] == g[b]);
                } else if pw {
                    assert(d(g[a], m - 1) <= t);
                }
            }
        }
    }
}

/// An item at or after `i` that a group started at `i` has.
proof fn lemma_grow_contains(d: spec_fn(int, int) -> int, t: int, pw: bool, taken: Set<int>, i: int, m: int, k: int)
    requires
        grow(d, t, pw, taken, i, m).contains(k),
    ensures
        i <= k,
        k == i || (k < m && !taken.contains(k)),
{
    lemma_grow(d, t, pw, taken, i, m);
    let g = grow(d, t, pw, taken, i, m);
    let x = choose|x: int| 0 <= x < g.len() && g[x] == k;
    if x > 0 {
        assert(i < g[x] < m);
    }
}

/// The items taken before `a` are still taken before any later `b`.
proof fn lemma_taken_grows(d: spec_fn(int, int) -> int, t: int, pw: bool, n: int, a: int, b: int, k: int)
    requires
        0 <= a <= b,
        taken_before(d, t, pw, n, a).contains(k),
    ensures
        taken_before(d, t, pw, n, b).contains(k),
    decreases b - a,
{
    if a < b {
        lemma_taken_grows(d, t, pw, n, a, b - 1, k);
    }
}

/// Similarity of a group, kept exactly: `score / (64 * pairs)` when `pairs > 0`
/// (each claimed member contributes `64 - distance`), and 1 when `pairs == 0`
/// (byte-identical groups).
#[derive(Debug, Clone, Copy, PartialEq, Eq, Structural)]
pub struct Similarity {
    pub score: i128,
    pub pairs: u64,
}

impl Similarity {
    /// The similarity of byte-identical files.
    pub fn identical() -> (s: Similarity)
        ensures
            s.score == 0,
            s.pairs == 0,
    {
        Similarity { score: 0, pairs: 0 }
    }
}

/// `a` lists exactly the indices in `b`.
pub open spec fn same_indices(a: Seq<usize>, b: Seq<int>) -> bool {
    a.len() == b.len() && forall|k: int| 0 <= k < a.len() ==> a[k] as int == b[k]
}

/// `r` holds the groups `cs`, as indices.
pub open spec fn index_groups_match(r: Seq<(Vec<usize>, Similarity)>, cs: Seq<(Seq<int>, int, int)>) -> bool {
    &&& r.len() == cs.len()
    &&& forall|g: int|
        0 <= g < r.len() ==> {
            &&& same_indices((#[trigger] r[g]).0@, cs[g].0)
            &&& r[g].1.score == cs[g].1
            &&& r[g].1.pairs == cs[g].2
        }
}

fn cluster_greedy<F: Fn(usize, usize) -> u32>(
    n: usize,
    threshold: u32,
    pw: bool,
    dist: F,
    Ghost(d): Ghost<spec_fn(int, int) -> int>,
) -> (r: Vec<(Vec<usize>, Similarity)>)
    requires
        forall|i: usize, j: usize| i < j < n ==> #[trigger] dist.requires((i, j)),
        forall|i: usize, j: usize, x: u32|
            i < j < n && #[trigger] dist.ensures((i, j), x) ==> x as int == d(i as int, j as int),
    ensures
        index_groups_match(r@, clusters(d, threshold as int, pw, n as int, n as int)),
{
    let ghost t = threshold as int;
    let mut visited: Vec<bool> = Vec::new();
    let mut z: usize = 0;
    while z < n
        invariant
            z <= n,
            visited@.len() == z,
            forall|k: int| 0 <= k < z ==> !visited@[k],
        decreases n - z,
    {
        visited.push(false);
        z = z + 1;
    }
    let mut groups: Vec<(Vec<usize>, Similarity)> = Vec::new();
    let mut i: usize = 0;
    while i < n
        invariant
            i <= n,
            t == threshold as int,
            visited@.len() == n,
            forall|k: int| 0 <= k < n ==> visited@[k] == taken_before(d, t, pw, n as int, i as int).contains(k),
            index_groups_match(groups@, clusters(d, t, pw, n as int, i as int)),
            forall|a: usize, b: usize| a < b < n ==> #[trigger] dist.requires((a, b)),
            forall|a: usize, b: usize, x: u32|
                a < b < n && #[trigger] dist.ensures((a, b), x) ==> x as int == d(a as int, b as int),
        decreases n - i,
    {
        let ghost tk = taken_before(d, t, pw, n as int, i as int);
        if visited[i] {
            i = i + 1;
            continue;
        }
        let mut members: Vec<usize> = Vec::new();
        members.push(i);
        let mut score: i128 = 0;
        let mut pairs: u64 = 0;
        let mut j: usize = i + 1;
        proof {
            lemma_grow(d, t, pw, tk, i as int, j as int);
        }
        while j < n
            invariant
                i < n,
                t == threshold as int,
                i + 1 <= j <= n,
                tk == taken_before(d, t, pw, n as int, i as int),
                !tk.contains(i as int),
                visited@.len() == n,
                forall|k: int|
                    0 <= k < n ==> visited@[k] == (tk.contains(k) || (i < k && grow(d, t, pw, tk,
                        i as int,
                        j as int,
                    ).contains(k))),
                same_indices(members@, grow(d, t, pw, tk, i as int, j as int)),
                score == group_score(d, grow(d, t, pw, tk, i as int, j as int)),
                pairs == grow(d, t, pw, tk, i as int, j as int).len() - 1,
                pairs <= j,
                -(pairs as int) * 4294967296 <= score <= 64 * (pairs as int),
                forall|a: usize, b: usize| a < b < n ==> #[trigger] dist.requires((a, b)),
                forall|a: usize, b: usize, x: u32|
                    a < b < n && #[trigger] dist.ensures((a, b), x) ==> x as int == d(
                        a as int,
                        b as int,
                    ),
            decreases n - j,
        {
            let ghost g = grow(d, t, pw, tk, i as int, j as int);
            proof {
                lemma_grow(d, t, pw, tk, i as int, j as int);
                if g.contains(j as int) {
                    lemma_grow_contains(d, t, pw, tk, i as int, j as int, j as int);
                }
            }
            if !visited[j] {
                let mut ok = true;
                let mut x: usize = 0;
                let limit: usize = if pw { members.len() } else { 1 };
                while x < limit && ok
                    invariant
                        j < n,
                        t == threshold as int,
                        limit == if pw { members@.len() } else { 1 },
                        members@.len() >= 1,
                        same_indices(members@, g),
                        forall|y: int| 1 <= y < g.len() ==> i < #[trigger] g[y] < j,
                        g[0] == i,
                        i < j,
                        x <= limit,
                        ok <==> forall|y: int| 0 <= y < x ==> d(#[trigger] g[y], j as int) <= t,
                        forall|a: usize, b: usize| a < b < n ==> #[trigger] dist.requires((a, b)),
                        forall|a: usize, b: usize, x: u32|
                            a < b < n && #[trigger] dist.ensures((a, b), x) ==> x as int == d(
                                a as int,
                                b as int,
                            ),
                    decreases limit - x,
                {
                    let a = members[x];
                    assert(a as int == g[x as int]);
                    assert(a < j) by {
                        if x > 0 {
                            assert(i < g[x as int] < j);
                        }
                    }
                    let e = dist(a, j);
                    assert(e as int == d(g[x as int], j as int));
                    if e > threshold {
                        ok = false;
                    }
                    x = x + 1;
                }
                if ok {
                    assert(joins(d, t, pw, g, j as int));
                    let e0 = dist(i, j);
                    let ghost old_members = members@;
                    members.push(j);
                    score = score + 64 - (e0 as i128);
                    pairs = pairs + 1;
                    visited.set(j, true);
                    proof {
                        let h = grow(d, t, pw, tk, i as int, j + 1);
                        assert(h == g.push(j as int));
                        assert(h.drop_last() =~= g);
                        assert(members@ =~= old_members.push(j));
                        assert forall|k: int| 0 <= k < n implies visited@[k] == (tk.contains(k) || (i
                            < k && h.contains(k))) by {
                            lemma_push_contains(g, j as int, k);
                        }
                    }
                } else {
                    assert(!joins(d, t, pw, g, j as int));
                }
            }
            j = j + 1;
        }
        visited.set(i, true);
        proof {
            let g = grow(d, t, pw, tk, i as int, n as int);
            lemma_grow(d, t, pw, tk, i as int, n as int);
            assert(g.contains(i as int)) by {
                assert(g[0] == i);
            }
            assert forall|k: int| 0 <= k < n implies visited@[k] == taken_before(d, t, pw, n as int,
                i + 1,
            ).contains(k) by {
                if g.contains(k) {
                    lemma_grow_contains(d, t, pw, tk, i as int, n as int, k);
                }
            }
        }
        if members.len() > 1 {
            let sim = Similarity { score, pairs };
            let ghost old_groups = groups@;
            groups.push((members, sim));
            proof {
                let g = grow(d, t, pw, tk, i as int, n as int);
                let cs = clusters(d, t, pw, n as int, i as int);
                let cs1 = clusters(d, t, pw, n as int, i + 1);
                assert(cs1 == cs.push((g, group_score(d, g), g.len() - 1)));
                assert forall|k: int| 0 <= k < groups@.len() implies {
                    &&& same_indices((#[trigger] groups@[k]).0@, cs1[k].0)
                    &&& groups@[k].1.score == cs1[k].1
                    &&& groups@[k].1.pairs == cs1[k].2
                } by {
                    if k < old_groups.len() {
                        assert(groups@[k] == old_groups[k]);
                    }
                }
            }
        }
        i = i + 1;
    }
    groups
}

/// `r` holds the groups `cs` with each index replaced by the path at that index.
pub open spec fn path_groups_match(
    r: Seq<(Vec<String>, Similarity)>,
    cs: Seq<(Seq<int>, int, int)>,
    paths: Seq<Seq<char>>,
) -> bool {
    &&& r.len() == cs.len()
    &&& forall|g: int|
        0 <= g < r.len() ==> {
            &&& (#[trigger] r[g]).0@.len() == cs[g].0.len()
            &&& forall|k: int| 0 <= k < cs[g].0.len() ==> r[g].0@[k]@ == paths[cs[g].0[k]]
            &&& r[g].1.score == cs[g].1
            &&& r[g].1.pairs == cs[g].2
        }
}

fn name_groups(groups: Vec<(Vec<usize>, Similarity)>, names: &Vec<String>, Ghost(cs): Ghost<
    Seq<(Seq<int>, int, int)>,
>) -> (r: Vec<(Vec<String>, Similarity)>)
    requires
        index_groups_match(groups@, cs),
        forall|g: int, k: int|
            0 <= g < groups@.len() && 0 <= k < groups@[g].0@.len() ==> (#[trigger] groups@[g].0@[k])
                < names@.len(),
    ensures
        path_groups_match(r@, cs, names@.map_values(|s: String| s@)),
{
    let ghost paths = names@.map_values(|s: String| s@);
    let mut r: Vec<(Vec<String>, Similarity)> = Vec::new();
    let mut g: usize = 0;
    while g < groups.len()
        invariant
            g <= groups@.len(),
            index_groups_match(groups@, cs),
            paths == names@.map_values(|s: String| s@),
            forall|a: int, k: int|
                0 <= a < groups@.len() && 0 <= k < groups@[a].0@.len() ==> (#[trigger] groups@[a].0@[k])
                    < names@.len(),
            path_groups_match(r@, cs.take(g as int), paths),
        decreases groups@.len() - g,
    {
        let members = &groups[g].0;
        let mut named: Vec<String> = Vec::new();
        let mut k: usize = 0;
        while k < members.len()
            invariant
                0 <= g < groups@.len(),
                *members == groups@[g as int].0,
                index_groups_match(groups@, cs),
                paths == names@.map_values(|s: String| s@),
                forall|a: int, b: int|
                    0 <= a < groups@.len() && 0 <= b < groups@[a].0@.len() ==> (#[trigger] groups@[a].0@[b])
                        < names@.len(),
                k <= members@.len(),
                named@.len() == k,
                forall|b: int| 0 <= b < k ==> named@[b]@ == paths[cs[g as int].0[b]],
            decreases members@.len() - k,
        {
            let idx = members[k];
            assert(idx < names@.len());
            named.push(names[idx].clone());
            k = k + 1;
        }
        let ghost old_r = r@;
        r.push((named, groups[g].1));
        proof {
            let cg = cs.take(g + 1);
            assert forall|a: int| 0 <= a < r@.len() implies {
                &&& (#[trigger] r@[a]).0@.len() == cg[a].0.len()
                &&& forall|b: int| 0 <= b < cg[a].0.len() ==> r@[a].0@[b]@ == paths[cg[a].0[b]]
                &&& r@[a].1.score == cg[a].1
                &&& r@[a].1.pairs == cg[a].2
            } by {
                if a < g {
                    assert(r@[a] == old_r[a]);
                    assert(cg[a] == cs.take(g as int)[a]);
                }
            }
        }
        g = g + 1;
    }
    assert(cs.take(groups@.len() as int) =~= cs);
    r
}

fn path_names_of_images(prints: &Vec<ImageFingerprint>) -> (names: Vec<String>)
    ensures
        names@.len() == prints@.len(),
        forall|i: int| 0 <= i < prints@.len() ==> (#[trigger] names@[i])@ == prints@[i].path@,
{
    let mut names: Vec<String> = Vec::new();
    let mut i: usize = 0;
    while i < prints.len()
        invariant
            i <= prints@.len(),
            names@.len() == i,
            forall|a: int| 0 <= a < i ==> (#[trigger] names@[a])@ == prints@[a].path@,
        decreases prints@.len() - i,
    {
        names.push(prints[i].path.clone());
        i = i + 1;
    }
    names
}

fn path_names_of_videos(prints: &Vec<VideoFingerprint>) -> (names: Vec<String>)
    ensures
        names@.len() == prints@.len(),
        forall|i: int| 0 <= i < prints@.len() ==> (#[trigger] names@[i])@ == prints@[i].path@,
{
    let mut names: Vec<String> = Vec::new();
    let mut i: usize = 0;
    while i < prints.len()
        invariant
            i <= prints@.len(),
            names@.len() == i,
            forall|a: int| 0 <= a < i ==> (#[trigger] names@[a])@ == prints@[a].path@,
        decreases prints@.len() - i,
    {
        names.push(prints[i].path.clone());
        i = i + 1;
    }
    names
}

/// Distances between image fingerprints by position: their Hamming distance.
pub open spec fn image_dist(ps: Seq<ImageFingerprint>) -> spec_fn(int, int) -> int {
    |i: int, j: int| hamming(ps[i].hash, ps[j].hash) as int
}

/// Distances between video fingerprints by position: their average frame distance.
pub open spec fn video_dists(ps: Seq<VideoFingerprint>) -> spec_fn(int, int) -> int {
    |i: int, j: int| video_dist(ps[i].frame_hashes@, ps[j].frame_hashes@)
}

fn groups_in_range(groups: &Vec<(Vec<usize>, Similarity)>, n: usize, Ghost(d): Ghost<spec_fn(int, int) -> int>, t: u32, pw: bool)
    requires
        index_groups_match(groups@, clusters(d, t as int, pw, n as int, n as int)),
    ensures
        forall|g: int, k: int|
            0 <= g < groups@.len() && 0 <= k < groups@[g].0@.len() ==> (#[trigger] groups@[g].0@[k])
                < n,
{
    proof {
        law_cluster_shape(d, t as int, pw, n as int, n as int);
        let cs = clusters(d, t as int, pw, n as int, n as int);
        assert forall|g: int, k: int|
            0 <= g < groups@.len() && 0 <= k < groups@[g].0@.len() implies (#[trigger] groups@[g].0@[k])
                < n by {
            assert(same_indices(groups@[g].0@, cs[g].0));
            assert(groups@[g].0@[k] as int == cs[g].0[k]);
        }
    }
}

/// Clusters images into groups where every pair is within `threshold` bits: walking
/// them in order, an image not yet grouped starts a group, and a later ungrouped image
/// joins it when it lies within `threshold` bits of every member so far. Only groups of
/// two or more are returned, each with the summed similarity of its later members to
/// its first.
pub fn group_similar_images(prints: &Vec<ImageFingerprint>, threshold: u32) -> (r: Vec<
    (Vec<String>, Similarity),
>)
    ensures
        path_groups_match(
            r@,
            clusters(image_dist(prints@), threshold as int, true, prints@.len() as int, prints@.len() as int),
            prints@.map_values(|p: ImageFingerprint| p.path@),
        ),
{
    let n = prints.len();
    let ghost d = image_dist(prints@);
    let f = |i: usize, j: usize| -> (x: u32)
        requires
            i < prints@.len(),
            j < prints@.len(),
        ensures
            x as int == hamming(prints@[i as int].hash, prints@[j as int].hash),
        { prints[i].hash.dist(prints[j].hash) };
    let groups = cluster_greedy(n, threshold, true, f, Ghost(d));
    groups_in_range(&groups, n, Ghost(d), threshold, true);
    let names = path_names_of_images(prints);
    let r = name_groups(groups, &names, Ghost(clusters(d, threshold as int, true, n as int, n as int)));
    assert(names@.map_values(|s: String| s@) =~= prints@.map_values(|p: ImageFingerprint| p.path@));
    r
}

/// Every two videos have a defined distance.
pub open spec fn video_pairs_defined(prints: Seq<VideoFingerprint>) -> bool {
    forall|i: int, j: int|
        0 <= i < j < prints.len() ==> video_distance_defined(prints[i].frame_hashes@, prints[j].frame_hashes@)
}

/// Clusters videos into groups where the average frame distance to the group's first
/// video is within `threshold`: walking them in order, a video not yet grouped starts a
/// group and takes every later ungrouped video within `threshold` of it. Only groups of
/// two or more are returned, each with the summed similarity of its later members to
/// its first.
pub fn group_similar_videos(prints: &Vec<VideoFingerprint>, threshold: u32) -> (r: Vec<
    (Vec<String>, Similarity),
>)
    requires
        video_pairs_defined(prints@),
    ensures
        path_groups_match(
            r@,
            clusters(video_dists(prints@), threshold as int, false, prints@.len() as int, prints@.len() as int),
            prints@.map_values(|p: VideoFingerprint| p.path@),
        ),
{
    let n = prints.len();
    let ghost d = video_dists(prints@);
    let f = |i: usize, j: usize| -> (x: u32)
        requires
            i < prints@.len(),
            j < prints@.len(),
            video_distance_defined(prints@[i as int].frame_hashes@, prints@[j as int].frame_hashes@),
        ensures
            x as int == video_dist(prints@[i as int].frame_hashes@, prints@[j as int].frame_hashes@),
        { video_distance(&prints[i], &prints[j]) };
    let groups = cluster_greedy(n, threshold, false, f, Ghost(d));
    groups_in_range(&groups, n, Ghost(d), threshold, false);
    let names = path_names_of_videos(prints);
    let r = name_groups(groups, &names, Ghost(clusters(d, threshold as int, false, n as int, n as int)));
    assert(names@.map_values(|s: String| s@) =~= prints@.map_values(|p: VideoFingerprint| p.path@));
    r
}

// ── Laws of clustering ─────────────────────────────────────────────────────

/// What every group of a clustering looks like: at least two members, in increasing
/// order and below `n`; every later member lies within the threshold of the first, and
/// when `pw` every two members lie within it of each other; the first member is an item
/// no earlier group has, and the group is the one it grows;
/// the score and pair count are those of its members; and groups come in increasing
/// order of their first member.
pub proof fn law_cluster_shape(d: spec_fn(int, int) -> int, t: int, pw: bool, n: int, m: int)
    requires
        0 <= m <= n,
    ensures
        forall|g: int|
            0 <= g < clusters(d, t, pw, n, m).len() ==> {
                let c = #[trigger] clusters(d, t, pw, n, m)[g];
                &&& c.0.len() >= 2
                &&& c.1 == group_score(d, c.0)
                &&& c.2 == c.0.len() - 1
                &&& 0 <= c.0[0] < m
                &&& !taken_before(d, t, pw, n, c.0[0]).contains(c.0[0])
                &&& c.0 == grow(d, t, pw, taken_before(d, t, pw, n, c.0[0]), c.0[0], n)
                &&& forall|a: int, b: int|
                    0 <= a < b < c.0.len() ==> #[trigger] c.0[a] < #[trigger] c.0[b] && (pw || a == 0
                        ==> d(c.0[a], c.0[b]) <= t)
                &&& forall|k: int| 0 <= k < c.0.len() ==> 0 <= #[trigger] c.0[k] < n
            },
        forall|g1: int, g2: int|
            0 <= g1 < g2 < clusters(d, t, pw, n, m).len() ==> (#[trigger] clusters(d, t, pw, n, m)[g1]).0[0]
                < (#[trigger] clusters(d, t, pw, n, m)[g2]).0[0],
    decreases m,
{
    if m > 0 {
        law_cluster_shape(d, t, pw, n, m - 1);
        let i = m - 1;
        let prev = clusters(d, t, pw, n, m - 1);
        let cur = clusters(d, t, pw, n, m);
        let tk = taken_before(d, t, pw, n, i);
        let g = grow(d, t, pw, tk, i, n);
        lemma_grow(d, t, pw, tk, i, n);
        if !tk.contains(i) && g.len() > 1 {
            let c = cur[prev.len() as int];
            assert(c.0 == g);
            assert forall|k: int| 0 <= k < c.0.len() implies 0 <= #[trigger] c.0[k] < n by {
                if k > 0 {
                    assert(i < g[k] < n);
                }
            }
        }
        assert forall|g: int| 0 <= g < prev.len() implies cur[g] == prev[g] by {}
    }
}

/// No item belongs to two groups of a clustering.
pub proof fn law_clusters_disjoint(d: spec_fn(int, int) -> int, t: int, pw: bool, n: int)
    requires
        0 <= n,
    ensures
        forall|g1: int, g2: int, k1: int, k2: int|
            0 <= g1 < clusters(d, t, pw, n, n).len() && 0 <= g2 < clusters(d, t, pw, n, n).len() && g1
                != g2 && 0 <= k1 < clusters(d, t, pw, n, n)[g1].0.len() && 0 <= k2 < clusters(d, t, pw, n,
                n,
            )[g2].0.len() ==> #[trigger] clusters(d, t, pw, n, n)[g1].0[k1] != #[trigger] clusters(d, t, pw, n,
                n,
            )[g2].0[k2],
{
    law_cluster_shape(d, t, pw, n, n);
    let cs = clusters(d, t, pw, n, n);
    assert forall|g1: int, g2: int, k1: int, k2: int|
        0 <= g1 < cs.len() && 0 <= g2 < cs.len() && g1 != g2 && 0 <= k1 < cs[g1].0.len() && 0 <= k2
            < cs[g2].0.len() implies #[trigger] cs[g1].0[k1] != #[trigger] cs[g2].0[k2] by {
        if g1 < g2 {
            lemma_members_apart(d, t, pw, n, cs[g1].0, cs[g2].0, k1, k2);
        } else {
            lemma_members_apart(d, t, pw, n, cs[g2].0, cs[g1].0, k2, k1);
        }
    }
}

/// A member of a group started at `s1` is not a member of a group started later, at `s2`:
/// the first is taken before `s2` and the second is not.
proof fn lemma_members_apart(d: spec_fn(int, int) -> int, t: int, pw: bool, n: int, c1: Seq<int>, c2: Seq<int>, k1: int, k2: int)
    requires
        c1.len() >= 1,
        c2.len() >= 1,
        0 <= c1[0] < c2[0],
        !taken_before(d, t, pw, n, c1[0]).contains(c1[0]),
        c1 == grow(d, t, pw, taken_before(d, t, pw, n, c1[0]), c1[0], n),
        !taken_before(d, t, pw, n, c2[0]).contains(c2[0]),
        c2 == grow(d, t, pw, taken_before(d, t, pw, n, c2[0]), c2[0], n),
        0 <= k1 < c1.len(),
        0 <= k2 < c2.len(),
    ensures
        c1[k1] != c2[k2],
{
    let s1 = c1[0];
    let s2 = c2[0];
    let v = c1[k1];
    assert(c1.contains(v));
    assert(taken_before(d, t, pw, n, s1 + 1).contains(v));
    lemma_taken_grows(d, t, pw, n, s1 + 1, s2, v);
    let tk2 = taken_before(d, t, pw, n, s2);
    lemma_grow(d, t, pw, tk2, s2, n);
    if k2 > 0 {
        assert(!tk2.contains(c2[k2]));
    }
}

/// Sum of the distances from the first member of `g` to members `1..k`.
pub open spec fn first_dist_total(d: spec_fn(int, int) -> int, g: Seq<int>, k: int) -> int
    decreases k,
{
    if k <= 1 {
        0
    } else {
        first_dist_total(d, g, k - 1) + d(g[0], g[k - 1])
    }
}

proof fn lemma_group_score_total(d: spec_fn(int, int) -> int, g: Seq<int>, k: int)
    requires
        1 <= k <= g.len(),
    ensures
        group_score(d, g.take(k)) == 64 * (k - 1) - first_dist_total(d, g, k),
    decreases k,
{
    if k > 1 {
        lemma_group_score_total(d, g, k - 1);
        assert(g.take(k).drop_last() =~= g.take(k - 1));
        assert(g.take(k)[0] == g[0]);
        assert(g.take(k).last() == g[k - 1]);
    }
}

/// A group's score is 64 for each member after the first, less the distances of those
/// members to the first: a group of identical items scores 64 per pair.
pub proof fn law_cluster_scores(d: spec_fn(int, int) -> int, t: int, pw: bool, n: int)
    requires
        0 <= n,
    ensures
        forall|g: int|
            0 <= g < clusters(d, t, pw, n, n).len() ==> (#[trigger] clusters(d, t, pw, n, n)[g]).1 == 64
                * (clusters(d, t, pw, n, n)[g].0.len() - 1) - first_dist_total(
                d,
                clusters(d, t, pw, n, n)[g].0,
                clusters(d, t, pw, n, n)[g].0.len() as int,
            ),
{
    law_cluster_shape(d, t, pw, n, n);
    let cs = clusters(d, t, pw, n, n);
    assert forall|g: int| 0 <= g < cs.len() implies (#[trigger] cs[g]).1 == 64 * (cs[g].0.len() - 1)
        - first_dist_total(d, cs[g].0, cs[g].0.len() as int) by {
        let c = cs[g].0;
        lemma_group_score_total(d, c, c.len() as int);
        assert(c.take(c.len() as int) =~= c);
    }
}

/// Whether item `v` is a member of one of the groups `cs`.
pub open spec fn in_some_group(cs: Seq<(Seq<int>, int, int)>, v: int) -> bool {
    exists|g: int| 0 <= g < cs.len() && (#[trigger] cs[g]).0.contains(v)
}

proof fn lemma_clusters_prefix(d: spec_fn(int, int) -> int, t: int, pw: bool, n: int, m1: int, m2: int)
    requires
        0 <= m1 <= m2,
    ensures
        clusters(d, t, pw, n, m1).len() <= clusters(d, t, pw, n, m2).len(),
        forall|g: int|
            0 <= g < clusters(d, t, pw, n, m1).len() ==> #[trigger] clusters(d, t, pw, n, m1)[g]
                == clusters(d, t, pw, n, m2)[g],
    decreases m2 - m1,
{
    if m1 < m2 {
        lemma_clusters_prefix(d, t, pw, n, m1, m2 - 1);
        let a = clusters(d, t, pw, n, m2 - 1);
        let b = clusters(d, t, pw, n, m2);
        assert forall|g: int| 0 <= g < a.len() implies #[trigger] a[g] == b[g] by {}
    }
}

proof fn lemma_grow_prefix(d: spec_fn(int, int) -> int, t: int, pw: bool, tk: Set<int>, i: int, m1: int, m2: int)
    requires
        m1 <= m2,
    ensures
        grow(d, t, pw, tk, i, m1).len() <= grow(d, t, pw, tk, i, m2).len(),
        forall|x: int|
            0 <= x < grow(d, t, pw, tk, i, m1).len() ==> #[trigger] grow(d, t, pw, tk, i, m2)[x] == grow(
                d,
                t,
                pw,
                tk,
                i,
                m1,
            )[x],
        forall|x: int|
            grow(d, t, pw, tk, i, m1).len() <= x < grow(d, t, pw, tk, i, m2).len() ==> #[trigger] grow(
                d,
                t,
                pw,
                tk,
                i,
                m2,
            )[x] >= m1,
    decreases m2 - m1,
{
    if m1 < m2 {
        lemma_grow_prefix(d, t, pw, tk, i, m1, m2 - 1);
        if m2 > i + 1 {
            let a = grow(d, t, pw, tk, i, m2 - 1);
            let b = grow(d, t, pw, tk, i, m2);
            assert forall|x: int| 0 <= x < a.len() implies #[trigger] b[x] == a[x] by {}
        }
    }
}

/// An item taken before `i` that comes at or after `i` is a member of one of the
/// groups formed by the first `i` items.
proof fn lemma_taken_in_group(d: spec_fn(int, int) -> int, t: int, pw: bool, n: int, i: int, v: int)
    requires
        0 <= i,
        i <= v,
        taken_before(d, t, pw, n, i).contains(v),
    ensures
        in_some_group(clusters(d, t, pw, n, i), v),
    decreases i,
{
    if i > 0 {
        let tk = taken_before(d, t, pw, n, i - 1);
        lemma_clusters_prefix(d, t, pw, n, i - 1, i);
        let prev = clusters(d, t, pw, n, i - 1);
        let cur = clusters(d, t, pw, n, i);
        if tk.contains(v) {
            lemma_taken_in_group(d, t, pw, n, i - 1, v);
            let g = choose|g: int| 0 <= g < prev.len() && (#[trigger] prev[g]).0.contains(v);
            assert(cur[g] == prev[g]);
        } else {
            let g = grow(d, t, pw, tk, i - 1, n);
            assert(!tk.contains(i - 1));
            assert(g.contains(v));
            lemma_grow(d, t, pw, tk, i - 1, n);
            let x = choose|x: int| 0 <= x < g.len() && g[x] == v;
            assert(x != 0);
            assert(g.len() > 1);
            assert(cur == prev.push((g, group_score(d, g), g.len() - 1)));
            assert(cur[prev.len() as int].0.contains(v));
        }
    }
}

/// Nothing joinable is left out: two items that end up in no group lie more than the
/// threshold apart (the earlier one started a walk that the later one would have joined).
pub proof fn law_ungrouped_apart(d: spec_fn(int, int) -> int, t: int, pw: bool, n: int, i: int, j: int)
    requires
        0 <= i < j < n,
        !in_some_group(clusters(d, t, pw, n, n), i),
        !in_some_group(clusters(d, t, pw, n, n), j),
    ensures
        d(i, j) > t,
{
    let tk = taken_before(d, t, pw, n, i);
    let all = clusters(d, t, pw, n, n);
    lemma_clusters_prefix(d, t, pw, n, i, n);
    lemma_clusters_prefix(d, t, pw, n, i + 1, n);
    if tk.contains(i) {
        lemma_taken_in_group(d, t, pw, n, i, i);
        let pre = clusters(d, t, pw, n, i);
        let g = choose|g: int| 0 <= g < pre.len() && (#[trigger] pre[g]).0.contains(i);
        assert(all[g] == pre[g]);
    }
    if tk.contains(j) {
        lemma_taken_in_group(d, t, pw, n, i, j);
        let pre = clusters(d, t, pw, n, i);
        let g = choose|g: int| 0 <= g < pre.len() && (#[trigger] pre[g]).0.contains(j);
        assert(all[g] == pre[g]);
    }
    let gn = grow(d, t, pw, tk, i, n);
    lemma_grow(d, t, pw, tk, i, n);
    if gn.len() > 1 {
        let pre = clusters(d, t, pw, n, i);
        let cur = clusters(d, t, pw, n, i + 1);
        assert(cur == pre.push((gn, group_score(d, gn), gn.len() - 1)));
        assert(gn[0] == i);
        assert(cur[pre.len() as int].0.contains(i));
        assert(all[pre.len() as int] == cur[pre.len() as int]);
    }
    lemma_grow_prefix(d, t, pw, tk, i, j + 1, n);
    lemma_grow(d, t, pw, tk, i, j);
    lemma_grow(d, t, pw, tk, i, j + 1);
    let gj = grow(d, t, pw, tk, i, j);
    assert(gj.len() == 1);
    assert(gj[0] == i);
    assert(!joins(d, t, pw, gj, j));
    if pw {
        assert(!fits_all(d, t, gj, j));
    }
}

/// Nothing joinable is left out of a group: a later item that no other group has and that
/// the group's rule admits (within the threshold of every member before it, or, for
/// videos, of the first member) is a member.
pub proof fn law_group_complete(d: spec_fn(int, int) -> int, t: int, pw: bool, n: int, g: int, j: int)
    requires
        0 <= n,
        0 <= g < clusters(d, t, pw, n, n).len(),
        clusters(d, t, pw, n, n)[g].0[0] < j < n,
        forall|g2: int|
            0 <= g2 < clusters(d, t, pw, n, n).len() && g2 != g ==> !(#[trigger] clusters(
                d,
                t,
                pw,
                n,
                n,
            )[g2]).0.contains(j),
        pw ==> forall|k: int|
            0 <= k < clusters(d, t, pw, n, n)[g].0.len() && clusters(d, t, pw, n, n)[g].0[k] < j
                ==> d(#[trigger] clusters(d, t, pw, n, n)[g].0[k], j) <= t,
        !pw ==> d(clusters(d, t, pw, n, n)[g].0[0], j) <= t,
    ensures
        clusters(d, t, pw, n, n)[g].0.contains(j),
{
    let all = clusters(d, t, pw, n, n);
    let c = all[g].0;
    law_cluster_shape(d, t, pw, n, n);
    let s = c[0];
    let tk = taken_before(d, t, pw, n, s);
    assert(c == grow(d, t, pw, tk, s, n));
    if tk.contains(j) {
        lemma_taken_in_group(d, t, pw, n, s, j);
        lemma_clusters_prefix(d, t, pw, n, s, n);
        law_cluster_shape(d, t, pw, n, s);
        let pre = clusters(d, t, pw, n, s);
        let g2 = choose|g2: int| 0 <= g2 < pre.len() && (#[trigger] pre[g2]).0.contains(j);
        assert(all[g2] == pre[g2]);
        assert(pre[g2].0[0] < s);
        assert(g2 != g);
    }
    lemma_grow_prefix(d, t, pw, tk, s, j, n);
    lemma_grow_prefix(d, t, pw, tk, s, j + 1, n);
    lemma_grow(d, t, pw, tk, s, j);
    let gj = grow(d, t, pw, tk, s, j);
    assert forall|x: int| 0 <= x < gj.len() implies d(#[trigger] gj[x], j) <= t || !pw by {
        if pw {
            assert(c[x] == gj[x]);
            if x > 0 {
                assert(gj[x] < j);
            }
            assert(c[x] < j);
        }
    }
    if pw {
        assert(fits_all(d, t, gj, j));
    } else {
        assert(gj[0] == s);
    }
    assert(joins(d, t, pw, gj, j));
    let gj1 = grow(d, t, pw, tk, s, j + 1);
    assert(gj1 == gj.push(j));
    assert(c[gj.len() as int] == j);
}

/// Two images that the image clustering puts in no group are more than `threshold` bits
/// apart: in particular, two images with the same hash always end up grouped.
pub proof fn law_images_ungrouped_apart(prints: Seq<ImageFingerprint>, threshold: u32, i: int, j: int)
    requires
        0 <= i < j < prints.len(),
        !in_some_group(clusters(image_dist(prints), threshold as int, true, prints.len() as int, prints.len() as int), i),
        !in_some_group(clusters(image_dist(prints), threshold as int, true, prints.len() as int, prints.len() as int), j),
    ensures
        hamming(prints[i].hash, prints[j].hash) > threshold,
{
    law_ungrouped_apart(image_dist(prints), threshold as int, true, prints.len() as int, i, j);
}

/// In the image groups, every two members' hashes are within the threshold of each
/// other, whichever comes first.
pub proof fn law_image_groups_pairwise(prints: Seq<ImageFingerprint>, threshold: u32)
    ensures
        forall|g: int, a: int, b: int|
            0 <= g < clusters(image_dist(prints), threshold as int, true, prints.len() as int, prints.len() as int).len()
                && 0 <= a < clusters(image_dist(prints), threshold as int, true, prints.len() as int, prints.len() as int)[g].0.len()
                && 0 <= b < clusters(image_dist(prints), threshold as int, true, prints.len() as int, prints.len() as int)[g].0.len()
                ==> hamming(
                prints[#[trigger] clusters(image_dist(prints), threshold as int, true, prints.len() as int, prints.len() as int)[g].0[a]].hash,
                prints[#[trigger] clusters(image_dist(prints), threshold as int, true, prints.len() as int, prints.len() as int)[g].0[b]].hash,
            ) <= threshold,
{
    let n = prints.len() as int;
    let d = image_dist(prints);
    let t = threshold as int;
    law_cluster_shape(d, t, true, n, n);
    let cs = clusters(d, t, true, n, n);
    assert forall|g: int, a: int, b: int|
        0 <= g < cs.len() && 0 <= a < cs[g].0.len() && 0 <= b < cs[g].0.len() implies hamming(
        prints[#[trigger] cs[g].0[a]].hash,
        prints[#[trigger] cs[g].0[b]].hash,
    ) <= threshold by {
        let c = cs[g].0;
        if a < b {
            assert(d(c[a], c[b]) <= t);
        } else if b < a {
            assert(d(c[b], c[a]) <= t);
            law_hamming_metric(prints[c[a]].hash, prints[c[b]].hash, prints[c[a]].hash);
        } else {
            law_hamming_metric(prints[c[a]].hash, prints[c[a]].hash, prints[c[a]].hash);
        }
    }
}

} // verus!
