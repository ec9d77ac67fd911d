//! Feature sequences: a flat table of frames, each a vector of `n_bins`
//! fixed-point features, and ranges of frames within one.

use crate::numerics::{isqrt, floor_sqrt, mean, mean_spec, percentile, percentile_spec, INFINITY, PER_MILLE};
use vstd::prelude::*;

verus! {

/// The frames below frame `t + 1` fit into a table of `total` values.
pub proof fn lemma_frame_in_bounds(total: nat, n_bins: nat, t: nat)
    requires
        n_bins > 0,
        t < total / n_bins,
    ensures
        t * n_bins + n_bins <= total,
        (t + 1) * n_bins <= total,
        t * n_bins <= total,
{
    assert((t + 1) * n_bins <= (total / n_bins) * n_bins) by (nonlinear_arith)
        requires
            t + 1 <= total / n_bins,
            n_bins > 0,
    ;
    assert((total / n_bins) * n_bins <= total) by (nonlinear_arith)
        requires
            n_bins > 0,
    ;
    assert((t + 1) * n_bins == t * n_bins + n_bins) by (nonlinear_arith);
    assert(t * n_bins >= 0) by (nonlinear_arith);
}

/// A product of two sizes is not negative, and grows with its first factor.
pub proof fn lemma_product_bounds(a: int, b: int, n: int)
    requires
        0 <= a <= b,
        0 <= n,
    ensures
        0 <= a * n <= b * n,
{
    assert(0 <= a * n <= b * n) by (nonlinear_arith)
        requires
            0 <= a <= b,
            0 <= n,
    ;
}

/// A flat sequence of feature frames with the spectrogram it came from.
pub struct NDSequence {
    /// number of features in a frame
    pub n_bins: usize,
    /// flat feature data `[x00 ... x0D ... xT0 ... xTD]`
    pub frames: Vec<i32>,
    /// number of spectral bins in a spectrogram frame
    pub dft_win: usize,
    /// flat spectrogram data `[x00 ... x0D ... xT0 ... xTD]`
    pub spectrogram: Vec<i32>,
    /// id of the audio file
    pub audio_id: usize,
}

impl NDSequence {
    /// Number of complete frames.
    pub open spec fn frame_count(&self) -> nat {
        if self.n_bins > 0 {
            (self.frames.len() / self.n_bins) as nat
        } else {
            0
        }
    }

    /// The feature vector at time `t`.
    pub open spec fn frame(&self, t: int) -> Seq<i32> {
        self.frames@.subrange(t * self.n_bins, t * self.n_bins + self.n_bins)
    }

    /// A sequence of bare feature frames, without a spectrogram.
    pub fn from_frames(n_bins: usize, frames: Vec<i32>, audio_id: usize) -> (r: NDSequence)
        ensures
            r.n_bins == n_bins,
            r.frames@ == frames@,
            r.dft_win == 0,
            r.spectrogram@.len() == 0,
            r.audio_id == audio_id,
    {
        NDSequence { n_bins, frames, dft_win: 0, spectrogram: Vec::new(), audio_id }
    }

    /// Number of frames: the length of the flat table divided by the number of bins.
    pub fn len(&self) -> (r: usize)
        requires
            self.n_bins > 0,
        ensures
            r == self.frame_count(),
    {
        self.frames.len() / self.n_bins
    }

    /// Number of spectrogram frames.
    pub fn len_spec(&self) -> (r: usize)
        requires
            self.dft_win > 0,
        ensures
            r == self.spectrogram@.len() / (self.dft_win as nat),
    {
        self.spectrogram.len() / self.dft_win
    }

    /// The feature vector at time `t`.
    pub fn vec(&self, t: usize) -> (r: &[i32])
        requires
            t < self.frame_count(),
        ensures
            r@ == self.frame(t as int),
            r@.len() == self.n_bins,
    {
        proof {
            lemma_frame_in_bounds(self.frames@.len(), self.n_bins as nat, t as nat);
            lemma_product_bounds(t as int, t as int, self.n_bins as int);
            assert(self.frames.len() == self.frames@.len());
        }
        let from: usize = t * self.n_bins;
        let to: usize = from + self.n_bins;
        let all: &[i32] = self.frames.as_slice();
        &all[from..to]
    }

    /// The value at time `t` and bin `f`, at position `t * n_bins + f` of the flat table.
    pub fn at(&self, t: usize, f: usize) -> (r: i32)
        requires
            t * self.n_bins + f < self.frames@.len(),
        ensures
            r == self.frames@[t * self.n_bins + f],
    {
        proof {
            lemma_product_bounds(t as int, t as int, self.n_bins as int);
            assert(self.frames.len() == self.frames@.len());
        }
        self.frames[t * self.n_bins + f]
    }
}

/// A range of frames in a sequence.
#[derive(Clone, Copy)]
pub struct Slice<'a> {
    pub start: usize,
    pub stop: usize,
    pub sequence: &'a NDSequence,
}

impl<'a> Slice<'a> {
    /// The range lies within its sequence.
    pub open spec fn wf(&self) -> bool {
        &&& self.start <= self.stop
        &&& self.stop <= self.sequence.frame_count()
    }

    /// The frames of the range, as a flat table.
    pub open spec fn frames(&self) -> Seq<i32> {
        self.sequence.frames@.subrange(
            self.start * self.sequence.n_bins,
            self.stop * self.sequence.n_bins,
        )
    }

    /// The part of the spectrogram that belongs to the range; what lies
    /// beyond the end of the spectrogram is left out.
    pub open spec fn spectrogram_part(&self) -> Seq<i32> {
        let total = self.sequence.spectrogram@.len() as int;
        let from = if self.start * self.sequence.dft_win < total {
            self.start * self.sequence.dft_win
        } else {
            total
        };
        let to = if self.stop * self.sequence.dft_win < total {
            self.stop * self.sequence.dft_win
        } else {
            total
        };
        if from <= to {
            self.sequence.spectrogram@.subrange(from, to)
        } else {
            Seq::empty()
        }
    }

    /// The frames from `start` up to, but without, `stop`.
    pub fn new(start: usize, stop: usize, sequence: &'a NDSequence) -> (r: Slice<'a>)
        ensures
            r.start == start,
            r.stop == stop,
            r.sequence == sequence,
    {
        Slice { start, stop, sequence }
    }

    /// Number of frames in the range.
    pub fn len(&self) -> (r: usize)
        requires
            self.start <= self.stop,
        ensures
            r == self.stop - self.start,
    {
        self.stop - self.start
    }

    /// Materialises the range as a sequence of its own.
    pub fn extract(&self) -> (r: NDSequence)
        requires
            self.wf(),
        ensures
            r.n_bins == self.sequence.n_bins,
            r.frames@ == self.frames(),
            r.spectrogram@ == self.spectrogram_part(),
            r.frame_count() == self.stop - self.start,
            r.audio_id == self.sequence.audio_id,
            r.dft_win == self.sequence.dft_win,
            forall|t: int| 0 <= t < self.stop - self.start ==> #[trigger] r.frame(t)
                == self.sequence.frame(self.start + t),
    {
        let n_bins: usize = self.sequence.n_bins;
        proof {
            if self.stop > 0 {
                lemma_frame_in_bounds(
                    self.sequence.frames@.len(),
                    n_bins as nat,
                    (self.stop - 1) as nat,
                );
                assert((self.stop - 1 + 1) * n_bins == self.stop * n_bins);
            } else {
                assert(self.stop * n_bins == 0) by (nonlinear_arith)
                    requires
                        self.stop == 0,
                ;
            }
            lemma_product_bounds(self.start as int, self.stop as int, n_bins as int);
            assert(self.sequence.frames.len() == self.sequence.frames@.len());
        }
        let from: usize = self.start * n_bins;
        let to: usize = self.stop * n_bins;
        let mut frames: Vec<i32> = Vec::new();
        let mut k: usize = from;
        while k < to
            invariant
                from <= k <= to <= self.sequence.frames@.len(),
                frames@ == self.sequence.frames@.subrange(from as int, k as int),
            decreases to - k,
        {
            frames.push(self.sequence.frames[k]);
            k = k + 1;
            assert(frames@ =~= self.sequence.frames@.subrange(from as int, k as int));
        }
        let spectrogram = self.extract_spectrogram();
        let r = NDSequence {
            n_bins,
            frames,
            dft_win: self.sequence.dft_win,
            spectrogram,
            audio_id: self.sequence.audio_id,
        };
        proof {
            let count = (self.stop - self.start) as nat;
            assert(to - from == count * n_bins) by (nonlinear_arith)
                requires
                    to == self.stop * n_bins,
                    from == self.start * n_bins,
                    count == self.stop - self.start,
            ;
            let total: nat = r.frames@.len();
            let bins: nat = n_bins as nat;
            if bins > 0 {
                assert(total / bins == count) by (nonlinear_arith)
                    requires
                        total == count * bins,
                        bins > 0,
                ;
            }
            assert forall|t: int| 0 <= t < self.stop - self.start implies #[trigger] r.frame(t)
                == self.sequence.frame(self.start + t) by {
                assert((self.start + t) * n_bins == from + t * n_bins) by (nonlinear_arith)
                    requires
                        from == self.start * n_bins,
                ;
                assert(t * n_bins + n_bins <= count * n_bins) by (nonlinear_arith)
                    requires
                        0 <= t < count,
                ;
                assert(t * n_bins >= 0) by (nonlinear_arith)
                    requires
                        0 <= t,
                ;
                assert(r.frame(t) =~= self.sequence.frame(self.start + t));
            }
        }
        r
    }

    /// The part of the spectrogram that belongs to the range.
    fn extract_spectrogram(&self) -> (r: Vec<i32>)
        ensures
            r@ == self.spectrogram_part(),
    {
        let dft_win: usize = self.sequence.dft_win;
        let total: usize = self.sequence.spectrogram.len();
        proof {
            lemma_product_bounds(0, self.start as int, dft_win as int);
            lemma_product_bounds(0, self.stop as int, dft_win as int);
        }
        let from: usize = match self.start.checked_mul(dft_win) {
            Some(v) => if v < total {
                v
            } else {
                total
            },
            None => total,
        };
        let to: usize = match self.stop.checked_mul(dft_win) {
            Some(v) => if v < total {
                v
            } else {
                total
            },
            None => total,
        };
        let mut out: Vec<i32> = Vec::new();
        if from > to {
            return out;
        }
        let mut k: usize = from;
        while k < to
            invariant
                from <= k <= to <= self.sequence.spectrogram@.len(),
                out@ == self.sequence.spectrogram@.subrange(from as int, k as int),
            decreases to - k,
        {
            out.push(self.sequence.spectrogram[k]);
            k = k + 1;
            assert(out@ =~= self.sequence.spectrogram@.subrange(from as int, k as int));
        }
        out
    }
}

/// The least of the first `upto` values; the largest 32-bit value where
/// there is none.
pub open spec fn min_upto(s: Seq<i32>, upto: int) -> i32
    decreases upto,
{
    if upto <= 0 {
        i32::MAX
    } else {
        let rest = min_upto(s, upto - 1);
        if s[upto - 1] < rest {
            s[upto - 1]
        } else {
            rest
        }
    }
}

/// The largest of the first `upto` values; the least 32-bit value where
/// there is none.
pub open spec fn max_upto(s: Seq<i32>, upto: int) -> i32
    decreases upto,
{
    if upto <= 0 {
        i32::MIN
    } else {
        let rest = max_upto(s, upto - 1);
        if s[upto - 1] > rest {
            s[upto - 1]
        } else {
            rest
        }
    }
}

/// A value between `lo` and `hi` as one of 256 shades of gray; black where
/// `lo` and `hi` are the same, or the value lies below `lo`.
pub open spec fn shade(x: i32, lo: i32, hi: i32) -> u8 {
    if hi <= lo || x <= lo {
        0
    } else if x >= hi {
        255
    } else {
        ((x - lo) * 255 / (hi - lo)) as u8
    }
}

/// Sum of the first `upto` values.
pub open spec fn feature_sum(s: Seq<i32>, upto: int) -> int
    decreases upto,
{
    if upto <= 0 {
        0
    } else {
        feature_sum(s, upto - 1) + s[upto - 1]
    }
}

/// Sum of the squared deviations of the first `upto` values from `mu`.
pub open spec fn squared_deviation(s: Seq<i32>, mu: int, upto: int) -> nat
    decreases upto,
{
    if upto <= 0 {
        0
    } else {
        squared_deviation(s, mu, upto - 1) + ((s[upto - 1] - mu) * (s[upto - 1] - mu)) as nat
    }
}

/// Mean of a feature vector, rounded towards zero; zero for no feature.
pub open spec fn feature_mean_spec(s: Seq<i32>) -> int {
    let total = feature_sum(s, s.len() as int);
    if s.len() == 0 {
        0
    } else if total >= 0 {
        total / (s.len() as int)
    } else {
        -((-total) / (s.len() as int))
    }
}

/// Standard deviation of a feature vector around `mu`, rounded down; zero
/// for no feature.
pub open spec fn feature_std_spec(s: Seq<i32>, mu: int) -> nat {
    if s.len() == 0 {
        0
    } else {
        floor_sqrt(squared_deviation(s, mu, s.len() as int) / s.len())
    }
}

/// The sum of features stays within the number of features times the
/// largest feature.
proof fn lemma_feature_sum_bound(s: Seq<i32>, upto: int)
    requires
        0 <= upto <= s.len(),
    ensures
        -upto * 0x8000_0000 <= feature_sum(s, upto) <= upto * 0x8000_0000,
    decreases upto,
{
    if upto > 0 {
        lemma_feature_sum_bound(s, upto - 1);
        assert((upto - 1) * 0x8000_0000 + 0x8000_0000 == upto * 0x8000_0000) by (nonlinear_arith);
        assert(-(upto - 1) * 0x8000_0000 - 0x8000_0000 == -upto * 0x8000_0000)
            by (nonlinear_arith);
    }
}

/// The sum of squared deviations stays within the number of features times
/// the largest square of a deviation.
proof fn lemma_squared_deviation_bound(s: Seq<i32>, mu: int, upto: int)
    requires
        0 <= upto <= s.len(),
        -0x8000_0000 <= mu <= 0x8000_0000,
    ensures
        squared_deviation(s, mu, upto) <= upto * 0x1_0000_0000_0000_0000,
    decreases upto,
{
    if upto > 0 {
        lemma_squared_deviation_bound(s, mu, upto - 1);
        let d = s[upto - 1] - mu;
        assert(0 <= d * d <= 0x1_0000_0000_0000_0000) by (nonlinear_arith)
            requires
                -0x1_0000_0000 <= d <= 0x1_0000_0000,
        ;
        assert((upto - 1) * 0x1_0000_0000_0000_0000 + 0x1_0000_0000_0000_0000 == upto
            * 0x1_0000_0000_0000_0000) by (nonlinear_arith);
    }
}

/// Mean of a feature vector.
pub fn feature_mean(x: &[i32]) -> (r: i32)
    ensures
        r == feature_mean_spec(x@),
{
    let mut total: i128 = 0;
    let mut i: usize = 0;
    while i < x.len()
        invariant
            i <= x@.len(),
            total == feature_sum(x@, i as int),
        decreases x@.len() - i,
    {
        proof {
            lemma_feature_sum_bound(x@, i as int);
            assert(i * 0x8000_0000 <= 0xffff_ffff_ffff_ffff * 0x8000_0000) by (nonlinear_arith)
                requires
                    0 <= i <= 0xffff_ffff_ffff_ffff,
            ;
        }
        total = total + x[i] as i128;
        i = i + 1;
    }
    if x.len() == 0 {
        return 0;
    }
    proof {
        lemma_feature_sum_bound(x@, x@.len() as int);
        let n = x@.len() as int;
        assert(n * 0x8000_0000 <= 0xffff_ffff_ffff_ffff * 0x8000_0000) by (nonlinear_arith)
            requires
                0 <= n <= 0xffff_ffff_ffff_ffff,
        ;
        let t: int = if total >= 0 {
            total as int
        } else {
            -(total as int)
        };
        assert(t / n <= 0x8000_0000) by (nonlinear_arith)
            requires
                0 <= t <= n * 0x8000_0000,
                n > 0,
        ;
        assert(t / n >= 0) by (nonlinear_arith)
            requires
                0 <= t,
                n > 0,
        ;
    }
    let len: u128 = x.len() as u128;
    if total >= 0 {
        proof {
            let n = x@.len() as int;
            lemma_feature_sum_upper(x@, n);
            assert((total as int) / n <= 0x7fff_ffff) by (nonlinear_arith)
                requires
                    0 <= total <= n * 0x7fff_ffff,
                    n > 0,
            ;
        }
        let q: u128 = (total as u128) / len;
        q as i32
    } else {
        let q: u128 = ((-total) as u128) / len;
        (-(q as i64)) as i32
    }
}

/// The sum of features stays below the number of features times the
/// largest value of a feature.
proof fn lemma_feature_sum_upper(s: Seq<i32>, upto: int)
    requires
        0 <= upto <= s.len(),
    ensures
        feature_sum(s, upto) <= upto * 0x7fff_ffff,
    decreases upto,
{
    if upto > 0 {
        lemma_feature_sum_upper(s, upto - 1);
        assert((upto - 1) * 0x7fff_ffff + 0x7fff_ffff == upto * 0x7fff_ffff) by (nonlinear_arith);
    }
}

/// Standard deviation of a feature vector given its mean.
pub fn feature_std(x: &[i32], mu: i32) -> (r: u64)
    ensures
        r == feature_std_spec(x@, mu as int),
{
    let mut total: u128 = 0;
    let mut i: usize = 0;
    while i < x.len()
        invariant
            i <= x@.len(),
            total == squared_deviation(x@, mu as int, i as int),
        decreases x@.len() - i,
    {
        let d: i64 = x[i] as i64 - mu as i64;
        let a: u64 = if d >= 0 {
            d as u64
        } else {
            (-d) as u64
        };
        proof {
            lemma_squared_deviation_bound(x@, mu as int, i as int + 1);
            assert(a * a <= 0xffff_ffff_ffff_ffff) by (nonlinear_arith)
                requires
                    0 <= a <= 0xffff_ffff,
            ;
            assert(a * a == d * d) by (nonlinear_arith)
                requires
                    a == d || a == -d,
            ;
            assert((i as int + 1) * 0x1_0000_0000_0000_0000 <= u128::MAX) by (nonlinear_arith)
                requires
                    i as int + 1 <= 0xffff_ffff_ffff_ffff,
            ;
        }
        total = total + (a * a) as u128;
        i = i + 1;
    }
    if x.len() == 0 {
        0
    } else {
        isqrt(total / (x.len() as u128))
    }
}

/// The spread of the first `upto` frames of a sequence.
pub open spec fn frame_spreads(seq: &NDSequence, upto: int) -> Seq<u64> {
    Seq::new(
        upto as nat,
        |t: int| feature_std_spec(seq.frame(t), feature_mean_spec(seq.frame(t))) as u64,
    )
}

/// The spread of every frame, smoothed: for frame `i` the mean of the
/// spreads of the `k` frames before it; zero for the first `k` frames, and
/// out of reach where the window is empty.
pub open spec fn variance_spec(seq: &NDSequence, k: int) -> Seq<u64> {
    let spreads = frame_spreads(seq, seq.frame_count() as int);
    Seq::new(
        seq.frame_count(),
        |i: int|
            if i < k {
                0u64
            } else if k <= 0 {
                INFINITY
            } else {
                mean_spec(spreads.subrange(i - k, i))
            },
    )
}

/// Where the search for ranges stands after some frames: the ranges found,
/// where the current one began, and whether one is being recorded.
pub struct RangeSearch {
    pub found: Seq<(usize, usize)>,
    pub start: usize,
    pub recording: bool,
}

/// The search after the first `upto` values: a range begins where a value
/// reaches the threshold, and ends before the first value below it; it
/// counts if it has more than `min_len` frames. The search begins
/// recording at frame zero.
pub open spec fn range_search(values: Seq<u64>, th: u64, min_len: usize, upto: int) -> RangeSearch
    decreases upto,
{
    if upto <= 0 {
        RangeSearch { found: Seq::empty(), start: 0, recording: true }
    } else {
        let before = range_search(values, th, min_len, upto - 1);
        let v = values[upto - 1];
        let i = (upto - 1) as usize;
        if v >= th && !before.recording {
            RangeSearch { found: before.found, start: i, recording: true }
        } else if v < th && before.recording {
            RangeSearch {
                found: if i - before.start > min_len {
                    before.found.push((before.start, i))
                } else {
                    before.found
                },
                start: before.start,
                recording: false,
            }
        } else {
            before
        }
    }
}

impl NDSequence {
    /// Features as bytes of gray scale image.
    /// The values are min-max normalized.
    pub fn img_ceps(&self) -> (r: Vec<u8>)
        ensures
            r@.len() == self.frames@.len(),
            forall|i: int|
                0 <= i < r@.len() ==> #[trigger] r@[i] == shade(
                    self.frames@[i],
                    min_upto(self.frames@, self.frames@.len() as int),
                    max_upto(self.frames@, self.frames@.len() as int),
                ),
    {
        shades(&self.frames)
    }

    /// Spectrogram as bytes of gray scale image.
    /// The values are min-max normalized.
    pub fn img_spec(&self) -> (r: Vec<u8>)
        ensures
            r@.len() == self.spectrogram@.len(),
            forall|i: int|
                0 <= i < r@.len() ==> #[trigger] r@[i] == shade(
                    self.spectrogram@[i],
                    min_upto(self.spectrogram@, self.spectrogram@.len() as int),
                    max_upto(self.spectrogram@, self.spectrogram@.len() as int),
                ),
    {
        shades(&self.spectrogram)
    }

    /// Variance in each frame, smoothed by moving average
    pub fn variance(&self, k: usize) -> (r: Vec<u64>)
        requires
            self.n_bins > 0,
        ensures
            r@ == variance_spec(self, k as int),
    {
        let len: usize = self.len();
        let mut deltas: Vec<u64> = Vec::new();
        let mut i: usize = 0;
        while i < len
            invariant
                i <= len,
                len == self.frame_count(),
                deltas@ == frame_spreads(self, i as int),
            decreases len - i,
        {
            let m = feature_mean(self.vec(i));
            let s = feature_std(self.vec(i), m);
            deltas.push(s);
            i = i + 1;
            assert(deltas@ =~= frame_spreads(self, i as int));
        }
        let mut moving_avg: Vec<u64> = Vec::new();
        let mut i: usize = 0;
        while i < len
            invariant
                i <= len,
                len == self.frame_count(),
                deltas@ == frame_spreads(self, len as int),
                moving_avg@.len() == i,
                forall|u: int|
                    0 <= u < i ==> #[trigger] moving_avg@[u] == variance_spec(self, k as int)[u],
            decreases len - i,
        {
            let avg: u64 = if i < k {
                0
            } else if k == 0 {
                INFINITY
            } else {
                let all: &[u64] = deltas.as_slice();
                mean(&all[i - k..i])
            };
            moving_avg.push(avg);
            i = i + 1;
        }
        assert(moving_avg@ =~= variance_spec(self, k as int));
        moving_avg
    }

    /// Extract the regions in which the smoothed variance reaches its
    /// percentile `perc` (in parts per thousand) for more than `min_len`
    /// frames.
    pub fn interesting_ranges<'a>(&'a self, moving_average: usize, perc: u64, min_len: usize) -> (r:
        Vec<Slice<'a>>)
        requires
            self.n_bins > 0,
            self.frame_count() > 0,
            perc < PER_MILLE,
        ensures
            ({
                let variances = variance_spec(self, moving_average as int);
                let found = range_search(
                    variances,
                    percentile_spec(variances, perc),
                    min_len,
                    variances.len() as int,
                ).found;
                &&& r@.len() == found.len()
                &&& forall|k: int|
                    0 <= k < r@.len() ==> (#[trigger] r@[k]).start == found[k].0 && r@[k].stop
                        == found[k].1 && r@[k].sequence == self
            }),
    {
        let variances = self.variance(moving_average);
        let th = percentile(&variances, perc);
        let mut ranges: Vec<Slice<'a>> = Vec::new();
        let mut start: usize = 0;
        let mut recording: bool = true;
        let mut i: usize = 0;
        while i < variances.len()
            invariant
                i <= variances@.len(),
                start <= i,
                ({
                    let search = range_search(variances@, th, min_len, i as int);
                    &&& search.start == start
                    &&& search.recording == recording
                    &&& ranges@.len() == search.found.len()
                    &&& forall|k: int|
                        0 <= k < ranges@.len() ==> (#[trigger] ranges@[k]).start == search.found[k].0
                            && ranges@[k].stop == search.found[k].1 && ranges@[k].sequence == self
                }),
            decreases variances@.len() - i,
        {
            let variance = variances[i];
            if variance >= th && !recording {
                start = i;
                recording = true;
            } else if variance < th && recording {
                recording = false;
                if i - start > min_len {
                    ranges.push(Slice::new(start, i, self));
                }
            }
            i = i + 1;
        }
        ranges
    }
}

/// The values as shades of gray between their least and their largest.
fn shades(values: &Vec<i32>) -> (r: Vec<u8>)
    ensures
        r@.len() == values@.len(),
        forall|i: int|
            0 <= i < r@.len() ==> #[trigger] r@[i] == shade(
                values@[i],
                min_upto(values@, values@.len() as int),
                max_upto(values@, values@.len() as int),
            ),
{
    let mut lo: i32 = i32::MAX;
    let mut hi: i32 = i32::MIN;
    let mut i: usize = 0;
    while i < values.len()
        invariant
            i <= values@.len(),
            lo == min_upto(values@, i as int),
            hi == max_upto(values@, i as int),
        decreases values@.len() - i,
    {
        if values[i] < lo {
            lo = values[i];
        }
        if values[i] > hi {
            hi = values[i];
        }
        i = i + 1;
    }
    let mut out: Vec<u8> = Vec::new();
    let mut i: usize = 0;
    while i < values.len()
        invariant
            i <= values@.len(),
            out@.len() == i,
            forall|u: int| 0 <= u < i ==> #[trigger] out@[u] == shade(values@[u], lo, hi),
        decreases values@.len() - i,
    {
        let x: i32 = values[i];
        let pixel: u8 = if hi <= lo || x <= lo {
            0
        } else if x >= hi {
            255
        } else {
            let num: u64 = (x as i64 - lo as i64) as u64 * 255;
            let den: u64 = (hi as i64 - lo as i64) as u64;
            proof {
                assert(num / den <= 255) by (nonlinear_arith)
                    requires
                        num == (x - lo) * 255,
                        den == hi - lo,
                        0 < x - lo < hi - lo,
                ;
            }
            (num / den) as u8
        };
        out.push(pixel);
        i = i + 1;
    }
    out
}

} // verus!
