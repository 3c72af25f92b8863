//! The time-indexed sample buffer: storage, global/local index mapping,
//! mixing, cutting, normalization and fade envelopes.
//!
//! A `Track` holds fixed-point samples recorded at `DESIRED_SAMPLE_RATE`.
//! The sample stored at position `i` of the buffer sits at global index
//! `starting_sample_index + i`; everything outside the buffer is silence.
//! `loudness` is a pending rational gain, applied lazily.

use vstd::prelude::*;
use crate::math::{abs_i, scale_down, FP_ONE, SAMPLE_LIMIT};

verus! {

/// The fixed internal synthesis rate, in samples per second.
pub const DESIRED_SAMPLE_RATE: u32 = 44100;

/// A dense, time-offset buffer of fixed-point amplitude samples.
pub struct Track {
    /// The stored samples, in fixed-point amplitude units.
    pub track: Vec<i64>,
    /// Global sample index of `track[0]`.
    pub starting_sample_index: usize,
    /// Numerator of the pending gain.
    pub loudness_num: u64,
    /// Denominator of the pending gain.
    pub loudness_den: u64,
}

impl Track {
    /// One past the last global index this track's buffer covers.
    pub open spec fn spec_end(self) -> int {
        self.starting_sample_index + self.track@.len()
    }

    /// The raw (gain not yet applied) sample at global index `i`;
    /// zero outside the buffer.
    pub open spec fn sample_at(self, i: int) -> int {
        if self.starting_sample_index <= i < self.spec_end() {
            self.track@[i - self.starting_sample_index] as int
        } else {
            0
        }
    }

    /// The sample at global index `i` with the pending gain applied.
    pub open spec fn weighted_at(self, i: int) -> int {
        scale_down(self.sample_at(i), self.loudness_num as int, self.loudness_den as int)
    }

    /// A stored sample is acceptable when it and its gain-scaled value
    /// both stay within `SAMPLE_LIMIT`.
    pub open spec fn sample_ok(s: int, num: int, den: int) -> bool {
        &&& -SAMPLE_LIMIT <= s <= SAMPLE_LIMIT
        &&& abs_i(scale_down(s, num, den)) <= SAMPLE_LIMIT
    }

    /// Well-formedness: a positive gain denominator, a buffer whose end
    /// index is still addressable, and bounded samples.
    pub open spec fn wf(self) -> bool {
        &&& self.loudness_den >= 1
        &&& self.spec_end() <= usize::MAX
        &&& forall|i: int|
            0 <= i < self.track@.len() ==> Self::sample_ok(
                #[trigger] self.track@[i] as int,
                self.loudness_num as int,
                self.loudness_den as int,
            )
    }

    /// An empty track at the origin with unit gain.
    pub fn new() -> (r: Track)
        ensures
            r.wf(),
            r.track@.len() == 0,
            r.starting_sample_index == 0,
            r.loudness_num == 1,
            r.loudness_den == 1,
    {
        let track: Vec<i64> = Vec::new();
        Track { track, starting_sample_index: 0, loudness_num: 1, loudness_den: 1 }
    }

    /// A track over the given samples, starting at the given global
    /// index, with unit gain.
    pub fn from_samples_at(track: Vec<i64>, starting_sample_index: usize) -> (r: Track)
        requires
            forall|i: int|
                0 <= i < track@.len() ==> -SAMPLE_LIMIT <= #[trigger] track@[i] <= SAMPLE_LIMIT,
            starting_sample_index + track@.len() <= usize::MAX,
        ensures
            r.wf(),
            r.track@ == track@,
            r.starting_sample_index == starting_sample_index,
            r.loudness_num == 1,
            r.loudness_den == 1,
    {
        proof {
            assert forall|i: int| 0 <= i < track@.len() implies Self::sample_ok(
                #[trigger] track@[i] as int,
                1,
                1,
            ) by {
                crate::math::lemma_scale_identity(track@[i] as int, 1);
            }
        }
        Track { track, starting_sample_index, loudness_num: 1, loudness_den: 1 }
    }

    /// A track over the given samples starting at index zero.
    pub fn from_samples(track: Vec<i64>) -> (r: Track)
        requires
            forall|i: int|
                0 <= i < track@.len() ==> -SAMPLE_LIMIT <= #[trigger] track@[i] <= SAMPLE_LIMIT,
        ensures
            r.wf(),
            r.track@ == track@,
            r.starting_sample_index == 0,
            r.loudness_num == 1,
            r.loudness_den == 1,
    {
        let n = track.len();
        Track::from_samples_at(track, 0)
    }

    /// The buffer's length in fixed-point seconds.
    pub fn length(&self) -> (r: i64)
        requires
            self.track@.len() * FP_ONE / (DESIRED_SAMPLE_RATE as int) <= i64::MAX,
        ensures
            r == self.track@.len() * FP_ONE / (DESIRED_SAMPLE_RATE as int),
    {
        proof {
            assert(self.track@.len() * FP_ONE <= (u64::MAX as int) * FP_ONE) by (nonlinear_arith)
                requires
                    0 <= self.track@.len() <= u64::MAX,
            ;
            vstd::arithmetic::div_mod::lemma_div_pos_is_pos(
                self.track@.len() * FP_ONE,
                DESIRED_SAMPLE_RATE as int,
            );
        }
        let wide: u128 = (self.track.len() as u128) * (FP_ONE as u128)
            / (DESIRED_SAMPLE_RATE as u128);
        wide as i64
    }

    /// One past the last global sample index covered by the buffer.
    pub fn ending_sample_index(&self) -> (r: usize)
        requires
            self.wf(),
        ensures
            r == self.spec_end(),
    {
        self.track.len() + self.starting_sample_index
    }

    /// The global sample index a non-negative fixed-point time falls on;
    /// times at or before zero map to index zero.
    pub open spec fn spec_time_to_index(t: int) -> int {
        if t <= 0 {
            0
        } else {
            t * (DESIRED_SAMPLE_RATE as int) / FP_ONE as int
        }
    }

    /// Global sample index of the given fixed-point time.
    pub fn time_to_sample_index(t0: i64) -> (r: usize)
        requires
            Self::spec_time_to_index(t0 as int) <= usize::MAX,
        ensures
            r == Self::spec_time_to_index(t0 as int),
    {
        if t0 <= 0 {
            0
        } else {
            proof {
                assert(t0 * (DESIRED_SAMPLE_RATE as int) <= (i64::MAX as int) * (u32::MAX as int))
                    by (nonlinear_arith)
                    requires
                        0 <= t0 <= i64::MAX,
                ;
                vstd::arithmetic::div_mod::lemma_div_pos_is_pos(
                    t0 * (DESIRED_SAMPLE_RATE as int),
                    FP_ONE as int,
                );
            }
            let wide: u128 = (t0 as u128) * (DESIRED_SAMPLE_RATE as u128) / (FP_ONE as u128);
            wide as usize
        }
    }

    /// Fixed-point time of the given global sample index.
    pub fn sample_index_to_time(i: usize) -> (r: i64)
        requires
            i * FP_ONE / (DESIRED_SAMPLE_RATE as int) <= i64::MAX,
        ensures
            r == i * FP_ONE / (DESIRED_SAMPLE_RATE as int),
    {
        proof {
            assert(i * FP_ONE <= (u64::MAX as int) * FP_ONE) by (nonlinear_arith)
                requires
                    0 <= i <= u64::MAX,
            ;
            vstd::arithmetic::div_mod::lemma_div_pos_is_pos(i * FP_ONE, DESIRED_SAMPLE_RATE as int);
        }
        let wide: u128 = (i as u128) * (FP_ONE as u128) / (DESIRED_SAMPLE_RATE as u128);
        wide as i64
    }

    /// The raw sample at a global index; zero outside the buffer.
    pub fn sample_in_global(&self, i: usize) -> (r: i64)
        requires
            self.wf(),
        ensures
            r == self.sample_at(i as int),
    {
        if i >= self.starting_sample_index && i - self.starting_sample_index < self.track.len() {
            self.track[i - self.starting_sample_index]
        } else {
            0
        }
    }

    /// The raw sample nearest to the given fixed-point time; zero
    /// outside the buffer.
    pub fn get_value_at_t(&self, sample_time: i64) -> (r: i64)
        requires
            self.wf(),
            Self::spec_time_to_index(sample_time as int) <= usize::MAX,
        ensures
            r == self.sample_at(Self::spec_time_to_index(sample_time as int)),
    {
        let idx = Track::time_to_sample_index(sample_time);
        self.sample_in_global(idx)
    }

    /// Left-pads the buffer with `starting_sample_index` zero samples and
    /// re-bases the track at global index zero: the sample heard at any
    /// global index is unchanged.
    pub fn start_with_silence(&mut self)
        requires
            old(self).wf(),
        ensures
            final(self).wf(),
            final(self).starting_sample_index == 0,
            final(self).track@.len() == old(self).spec_end(),
            final(self).loudness_num == old(self).loudness_num,
            final(self).loudness_den == old(self).loudness_den,
            forall|i: int| #[trigger]
                final(self).sample_at(i) == old(self).sample_at(i),
    {
        let mut padded: Vec<i64> = Vec::new();
        let lead = self.starting_sample_index;
        let mut i: usize = 0;
        while i < lead
            invariant
                0 <= i <= lead,
                padded@.len() == i,
                forall|j: int| 0 <= j < i ==> padded@[j] == 0i64,
            decreases lead - i,
        {
            padded.push(0);
            i = i + 1;
        }
        let mut j: usize = 0;
        let n = self.track.len();
        while j < n
            invariant
                0 <= j <= n,
                n == self.track@.len(),
                lead + n <= usize::MAX,
                padded@.len() == lead + j,
                forall|p: int| 0 <= p < lead ==> padded@[p] == 0i64,
                forall|p: int| 0 <= p < j ==> padded@[lead + p] == self.track@[p],
            decreases n - j,
        {
            padded.push(self.track[j]);
            j = j + 1;
        }
        self.track = padded;
        self.starting_sample_index = 0;
        proof {
            assert(scale_down(0, self.loudness_num as int, self.loudness_den as int) == 0) by {
                vstd::arithmetic::div_mod::lemma_div_of0(self.loudness_den as int);
            }
            assert forall|i: int| 0 <= i < self.track@.len() implies Self::sample_ok(
                #[trigger] self.track@[i] as int,
                self.loudness_num as int,
                self.loudness_den as int,
            ) by {
                if i < lead {
                    assert(self.track@[i] == 0i64);
                } else {
                    assert(self.track@[i] == old(self).track@[i - lead]);
                }
            }
            assert forall|i: int| #[trigger]
                final(self).sample_at(i) == old(self).sample_at(i) by {
                if 0 <= i < lead {
                    assert(final(self).track@[i] == 0i64);
                }
            }
        }
    }

    /// First global index of the union of two tracks' ranges; exactly
    /// one empty track cedes the range to the other.
    pub open spec fn mix_origin(a: Track, b: Track) -> int {
        if a.track@.len() == 0 && b.track@.len() != 0 {
            b.starting_sample_index as int
        } else if b.track@.len() == 0 && a.track@.len() != 0 {
            a.starting_sample_index as int
        } else if a.starting_sample_index <= b.starting_sample_index {
            a.starting_sample_index as int
        } else {
            b.starting_sample_index as int
        }
    }

    /// One past the last global index of the union of two tracks' ranges.
    pub open spec fn mix_end(a: Track, b: Track) -> int {
        if a.track@.len() == 0 && b.track@.len() != 0 {
            b.spec_end()
        } else if b.track@.len() == 0 && a.track@.len() != 0 {
            a.spec_end()
        } else if a.spec_end() >= b.spec_end() {
            a.spec_end()
        } else {
            b.spec_end()
        }
    }

    /// What it means for `m` to be the mix of `a` and `b`: it spans the
    /// union of their ranges, carries unit gain, and every global sample
    /// is the sum of the two gain-weighted inputs.
    pub open spec fn is_mix_of(m: Track, a: Track, b: Track) -> bool {
        &&& m.starting_sample_index == Self::mix_origin(a, b)
        &&& m.track@.len() == Self::mix_end(a, b) - Self::mix_origin(a, b)
        &&& m.loudness_num == 1
        &&& m.loudness_den == 1
        &&& forall|i: int| #[trigger] m.sample_at(i) == a.weighted_at(i) + b.weighted_at(i)
    }

    /// The weighted sample is zero everywhere outside the union range.
    proof fn lemma_weighted_zero_outside(a: Track, i: int)
        requires
            a.wf(),
            i < a.starting_sample_index || i >= a.spec_end(),
        ensures
            a.weighted_at(i) == 0,
    {
        vstd::arithmetic::div_mod::lemma_div_of0(a.loudness_den as int);
    }

    /// Mixes two tracks into a new one spanning the union of their
    /// ranges: each output sample is the sum of both inputs' gain-weighted
    /// samples at that global index, and the output carries unit gain.
    /// Mixing with an empty track reproduces the other track's range.
    pub fn mix(&self, another: &Track) -> (r: Track)
        requires
            self.wf(),
            another.wf(),
            forall|i: int|
                -SAMPLE_LIMIT <= (#[trigger] self.weighted_at(i)) + another.weighted_at(i)
                    <= SAMPLE_LIMIT,
        ensures
            r.wf(),
            Self::is_mix_of(r, *self, *another),
    {
        let origin: usize = if self.track.len() == 0 && another.track.len() != 0 {
            another.starting_sample_index
        } else if another.track.len() == 0 && self.track.len() != 0 {
            self.starting_sample_index
        } else if self.starting_sample_index <= another.starting_sample_index {
            self.starting_sample_index
        } else {
            another.starting_sample_index
        };
        let end: usize = if self.track.len() == 0 && another.track.len() != 0 {
            another.ending_sample_index()
        } else if another.track.len() == 0 && self.track.len() != 0 {
            self.ending_sample_index()
        } else {
            let ea = self.ending_sample_index();
            let eb = another.ending_sample_index();
            if ea >= eb {
                ea
            } else {
                eb
            }
        };
        assert(origin == Self::mix_origin(*self, *another));
        assert(end == Self::mix_end(*self, *another));
        assert(origin <= end);
        let mut mixv: Vec<i64> = Vec::new();
        let mut i: usize = origin;
        proof {
            vstd::arithmetic::div_mod::lemma_div_of0(self.loudness_den as int);
            vstd::arithmetic::div_mod::lemma_div_of0(another.loudness_den as int);
        }
        while i < end
            invariant
                origin <= i <= end,
                self.wf(),
                another.wf(),
                forall|j: int|
                    -SAMPLE_LIMIT <= (#[trigger] self.weighted_at(j)) + another.weighted_at(j)
                        <= SAMPLE_LIMIT,
                mixv@.len() == i - origin,
                forall|j: int|
                    0 <= j < i - origin ==> #[trigger] mixv@[j] == self.weighted_at(origin + j)
                        + another.weighted_at(origin + j),
            decreases end - i,
        {
            let sa = self.sample_in_global(i);
            let sb = another.sample_in_global(i);
            proof {
                if !(self.starting_sample_index <= i < self.spec_end()) {
                    vstd::arithmetic::div_mod::lemma_div_of0(self.loudness_den as int);
                }
                if !(another.starting_sample_index <= i < another.spec_end()) {
                    vstd::arithmetic::div_mod::lemma_div_of0(another.loudness_den as int);
                }
            }
            let wa = crate::math::scale_i64(sa, self.loudness_num, self.loudness_den);
            let wb = crate::math::scale_i64(sb, another.loudness_num, another.loudness_den);
            assert(wa == self.weighted_at(i as int));
            assert(wb == another.weighted_at(i as int));
            mixv.push(wa + wb);
            i = i + 1;
        }
        let r = Track { track: mixv, starting_sample_index: origin, loudness_num: 1, loudness_den: 1 };
        proof {
            assert forall|j: int| 0 <= j < r.track@.len() implies Self::sample_ok(
                #[trigger] r.track@[j] as int,
                1,
                1,
            ) by {
                crate::math::lemma_scale_identity(r.track@[j] as int, 1);
            }
            assert forall|i2: int| #[trigger]
                r.sample_at(i2) == self.weighted_at(i2) + another.weighted_at(i2) by {
                if origin <= i2 < end {
                    assert(r.sample_at(i2) == r.track@[i2 - origin] as int);
                } else {
                    if self.track@.len() > 0 {
                        assert(origin <= self.starting_sample_index);
                        assert(self.spec_end() <= end);
                    }
                    if another.track@.len() > 0 {
                        assert(origin <= another.starting_sample_index);
                        assert(another.spec_end() <= end);
                    }
                    Self::lemma_weighted_zero_outside(*self, i2);
                    Self::lemma_weighted_zero_outside(*another, i2);
                }
            }
        }
        r
    }

    /// Mixes two tracks when every summed sample stays within the
    /// library's bounds, and reports the overflow otherwise; the
    /// run-time test that callers outside the library need before
    /// `mix`.
    pub fn try_mix(&self, another: &Track) -> (r: Option<Track>)
        requires
            self.wf(),
            another.wf(),
        ensures
            match r {
                Some(m) => m.wf() && Self::is_mix_of(m, *self, *another),
                None => exists|i: int|
                    !(-SAMPLE_LIMIT <= (#[trigger] self.weighted_at(i)) + another.weighted_at(i)
                        <= SAMPLE_LIMIT),
            },
    {
        let lo: usize = if self.starting_sample_index <= another.starting_sample_index {
            self.starting_sample_index
        } else {
            another.starting_sample_index
        };
        let ea = self.ending_sample_index();
        let eb = another.ending_sample_index();
        let hi: usize = if ea >= eb {
            ea
        } else {
            eb
        };
        proof {
            vstd::arithmetic::div_mod::lemma_div_of0(self.loudness_den as int);
            vstd::arithmetic::div_mod::lemma_div_of0(another.loudness_den as int);
        }
        let mut i: usize = lo;
        while i < hi
            invariant
                lo <= i <= hi || (hi < lo && i == lo),
                self.wf(),
                another.wf(),
                lo <= self.starting_sample_index,
                lo <= another.starting_sample_index,
                self.spec_end() <= hi,
                another.spec_end() <= hi,
                forall|j: int|
                    lo <= j < i ==> -SAMPLE_LIMIT <= (#[trigger] self.weighted_at(j))
                        + another.weighted_at(j) <= SAMPLE_LIMIT,
            decreases hi - i,
        {
            let sa = self.sample_in_global(i);
            let sb = another.sample_in_global(i);
            proof {
                vstd::arithmetic::div_mod::lemma_div_of0(self.loudness_den as int);
                vstd::arithmetic::div_mod::lemma_div_of0(another.loudness_den as int);
            }
            let wa = crate::math::scale_i64(sa, self.loudness_num, self.loudness_den);
            let wb = crate::math::scale_i64(sb, another.loudness_num, another.loudness_den);
            assert(wa == self.weighted_at(i as int));
            assert(wb == another.weighted_at(i as int));
            if wa + wb > SAMPLE_LIMIT || wa + wb < -SAMPLE_LIMIT {
                return None;
            }
            i = i + 1;
        }
        proof {
            assert forall|j: int|
                -SAMPLE_LIMIT <= (#[trigger] self.weighted_at(j)) + another.weighted_at(j)
                    <= SAMPLE_LIMIT by {
                if !(lo <= j < hi) {
                    Self::lemma_weighted_zero_outside(*self, j);
                    Self::lemma_weighted_zero_outside(*another, j);
                }
            }
        }
        Some(self.mix(another))
    }

    /// Restricts the buffer to the global index range
    /// `[index(t0), index(t1))`, re-basing the origin to `index(t0)`;
    /// indices the old buffer did not cover are filled with silence.
    pub fn cut(&mut self, t0: i64, t1: i64)
        requires
            old(self).wf(),
            Self::spec_time_to_index(t0 as int) <= usize::MAX,
            Self::spec_time_to_index(t1 as int) <= usize::MAX,
        ensures
            final(self).wf(),
            final(self).starting_sample_index == Self::spec_time_to_index(t0 as int),
            final(self).loudness_num == old(self).loudness_num,
            final(self).loudness_den == old(self).loudness_den,
            final(self).track@.len() == if Self::spec_time_to_index(t1 as int)
                >= Self::spec_time_to_index(t0 as int) {
                Self::spec_time_to_index(t1 as int) - Self::spec_time_to_index(t0 as int)
            } else {
                0int
            },
            forall|k: int|
                0 <= k < final(self).track@.len() ==> #[trigger] final(self).track@[k] == old(
                    self,
                ).sample_at(Self::spec_time_to_index(t0 as int) + k),
    {
        let t0_sample = Track::time_to_sample_index(t0);
        let t1_sample = Track::time_to_sample_index(t1);
        let mut temp_track: Vec<i64> = Vec::new();
        let mut i: usize = t0_sample;
        while i < t1_sample
            invariant
                t0_sample <= i <= t1_sample || (t1_sample < t0_sample && i == t0_sample),
                self == old(self),
                self.wf(),
                temp_track@.len() == i - t0_sample,
                forall|k: int|
                    0 <= k < i - t0_sample ==> #[trigger] temp_track@[k] == self.sample_at(
                        t0_sample + k,
                    ),
            decreases t1_sample - i,
        {
            temp_track.push(self.sample_in_global(i));
            i = i + 1;
        }
        self.track = temp_track;
        self.starting_sample_index = t0_sample;
        proof {
            vstd::arithmetic::div_mod::lemma_div_of0(self.loudness_den as int);
            assert forall|k: int| 0 <= k < self.track@.len() implies Self::sample_ok(
                #[trigger] self.track@[k] as int,
                self.loudness_num as int,
                self.loudness_den as int,
            ) by {
                assert(self.track@[k] == old(self).sample_at(t0_sample + k));
            }
        }
    }

    /// The maximum absolute amplitude stored in the buffer; zero for an
    /// empty or all-silent buffer.
    pub fn peak(&self) -> (r: i64)
        requires
            self.wf(),
        ensures
            r == max_abs(self.track@),
            r >= 0,
    {
        let mut max_amp: u64 = 0;
        let mut i: usize = 0;
        let n = self.track.len();
        while i < n
            invariant
                0 <= i <= n,
                self.wf(),
                n == self.track@.len(),
                max_amp == max_abs(self.track@.take(i as int)),
                max_amp <= SAMPLE_LIMIT,
            decreases n - i,
        {
            let s = self.track[i];
            let a: u64 = if s >= 0 {
                s as u64
            } else {
                (-(s as i128)) as u64
            };
            assert(a == abs_i(s as int));
            if max_amp < a {
                max_amp = a;
            }
            proof {
                assert(self.track@.take(i + 1).drop_last() =~= self.track@.take(i as int));
                assert(self.track@.take(i + 1).last() == s);
            }
            i = i + 1;
        }
        proof {
            assert(self.track@.take(n as int) =~= self.track@);
        }
        max_amp as i64
    }

    /// Scans the buffer for the maximum absolute amplitude `M` and sets
    /// the pending gain to `FP_ONE / M`, so that applying it brings the
    /// loudest sample to full scale.  All-silent buffers are the callers'
    /// to rule out: the gain would divide by zero.
    pub fn normalize(&mut self)
        requires
            old(self).wf(),
            max_abs(old(self).track@) >= 1,
        ensures
            final(self).wf(),
            final(self).track@ == old(self).track@,
            final(self).starting_sample_index == old(self).starting_sample_index,
            final(self).loudness_num == FP_ONE as u64,
            final(self).loudness_den == max_abs(old(self).track@),
    {
        let max_amp: u64 = self.peak() as u64;
        self.loudness_num = FP_ONE as u64;
        self.loudness_den = max_amp;
        proof {
            lemma_max_abs_is_bound(self.track@);
            assert forall|k: int| 0 <= k < self.track@.len() implies Self::sample_ok(
                #[trigger] self.track@[k] as int,
                FP_ONE as int,
                max_amp as int,
            ) by {
                let s = self.track@[k] as int;
                let m = max_amp as int;
                crate::math::lemma_scale_mag_monotone(s, m, FP_ONE as int, m);
                assert((m * FP_ONE) / m == FP_ONE) by {
                    assert(m * FP_ONE == FP_ONE * m) by (nonlinear_arith);
                    vstd::arithmetic::div_mod::lemma_div_by_multiple(FP_ONE as int, m);
                }
            }
        }
    }

    /// Multiplies every stored sample by the pending gain, truncating
    /// toward zero, and resets the gain to one.
    pub fn apply_loudness(&mut self)
        requires
            old(self).wf(),
        ensures
            final(self).wf(),
            final(self).starting_sample_index == old(self).starting_sample_index,
            final(self).track@.len() == old(self).track@.len(),
            forall|k: int|
                0 <= k < final(self).track@.len() ==> #[trigger] final(self).track@[k]
                    == scale_down(
                    old(self).track@[k] as int,
                    old(self).loudness_num as int,
                    old(self).loudness_den as int,
                ),
            final(self).loudness_num == 1,
            final(self).loudness_den == 1,
    {
        let n = self.track.len();
        let mut i: usize = 0;
        while i < n
            invariant
                0 <= i <= n,
                n == self.track@.len(),
                self.starting_sample_index == old(self).starting_sample_index,
                self.loudness_num == old(self).loudness_num,
                self.loudness_den == old(self).loudness_den,
                self.loudness_den >= 1,
                self.spec_end() <= usize::MAX,
                forall|k: int| i <= k < n ==> #[trigger] self.track@[k] == old(self).track@[k],
                forall|k: int|
                    i <= k < n ==> Self::sample_ok(
                        #[trigger] self.track@[k] as int,
                        self.loudness_num as int,
                        self.loudness_den as int,
                    ),
                forall|k: int|
                    0 <= k < i ==> #[trigger] self.track@[k] == scale_down(
                        old(self).track@[k] as int,
                        old(self).loudness_num as int,
                        old(self).loudness_den as int,
                    ),
                forall|k: int|
                    0 <= k < i ==> -SAMPLE_LIMIT <= #[trigger] self.track@[k] <= SAMPLE_LIMIT,
            decreases n - i,
        {
            let s = self.track[i];
            let w = crate::math::scale_i64(s, self.loudness_num, self.loudness_den);
            self.track.set(i, w);
            i = i + 1;
        }
        self.loudness_num = 1;
        self.loudness_den = 1;
        proof {
            assert forall|k: int| 0 <= k < self.track@.len() implies Self::sample_ok(
                #[trigger] self.track@[k] as int,
                1,
                1,
            ) by {
                crate::math::lemma_scale_identity(self.track@[k] as int, 1);
            }
        }
    }
}

/// A multiplicative envelope that can be applied in place to a track's
/// buffer.
pub trait Mask: Sized {
    /// When the mask may be applied to the track.
    spec fn fits(self, t: Track) -> bool;

    /// The buffer that applying the mask produces.
    spec fn masked(self, t: Track) -> Seq<i64>;

    /// Applies the envelope in place; origin and pending gain are
    /// untouched, and no sample grows in magnitude.
    fn apply(self, track: &mut Track)
        requires
            old(track).wf(),
            self.fits(*old(track)),
        ensures
            final(track).wf(),
            final(track).starting_sample_index == old(track).starting_sample_index,
            final(track).loudness_num == old(track).loudness_num,
            final(track).loudness_den == old(track).loudness_den,
            final(track).track@ == self.masked(*old(track)),
    ;
}

/// A linear fade envelope over a leading (fade-in) or trailing
/// (fade-out) window of the buffer, given as a length in fixed-point
/// seconds.
pub struct LinearFadeInOut {
    /// Window length in fixed-point seconds.
    pub length: i64,
    /// Fade out over the buffer's tail rather than in over its head.
    pub is_out: bool,
}

impl LinearFadeInOut {
    /// A fade-in over the default window of a fifth of a second.
    pub fn fade_in() -> (r: Self)
        ensures
            r.length == FP_ONE / 5,
            !r.is_out,
    {
        LinearFadeInOut { length: FP_ONE / 5, is_out: false }
    }

    /// A fade-in over the given window.
    pub fn in_l(length: i64) -> (r: Self)
        ensures
            r.length == length,
            !r.is_out,
    {
        LinearFadeInOut { length, is_out: false }
    }

    /// A fade-out over the default window of a fifth of a second.
    pub fn out() -> (r: Self)
        ensures
            r.length == FP_ONE / 5,
            r.is_out,
    {
        LinearFadeInOut { length: FP_ONE / 5, is_out: true }
    }

    /// A fade-out over the given window.
    pub fn out_l(length: i64) -> (r: Self)
        ensures
            r.length == length,
            r.is_out,
    {
        LinearFadeInOut { length, is_out: true }
    }

    /// The fade window in samples.
    pub open spec fn window(self) -> int {
        Track::spec_time_to_index(self.length as int)
    }

    /// The buffer after the fade: inside the window the sample at
    /// distance `d` from the silent edge becomes `s * d / window`;
    /// everything else is unchanged.
    pub open spec fn faded(self, t: Track) -> Seq<i64> {
        let len = t.track@.len() as int;
        let l = self.window();
        Seq::new(
            t.track@.len(),
            |k: int|
                if self.is_out {
                    if len - l <= k < len {
                        scale_down(t.track@[k] as int, len - k, l) as i64
                    } else {
                        t.track@[k]
                    }
                } else {
                    if 0 <= k < l {
                        scale_down(t.track@[k] as int, k, l) as i64
                    } else {
                        t.track@[k]
                    }
                },
        )
    }
}

impl Mask for LinearFadeInOut {
    /// The fade window must not be longer than the buffer.
    open spec fn fits(self, t: Track) -> bool {
        &&& self.length >= 0
        &&& self.window() <= t.track@.len()
    }

    /// Inside the window the sample at distance `d` from the silent edge
    /// becomes `s * d / window`; everything else is unchanged.
    open spec fn masked(self, t: Track) -> Seq<i64> {
        self.faded(t)
    }

    fn apply(self, track: &mut Track) {
        let l = Track::time_to_sample_index(self.length);
        let len = track.track.len();
        let (from, to): (usize, usize) = if self.is_out {
            (len - l, len)
        } else {
            (0, l)
        };
        let mut k: usize = from;
        while k < to
            invariant
                from <= k <= to || (to < from && k == from),
                to <= len,
                len == track.track@.len(),
                len == old(track).track@.len(),
                old(track).wf(),
                self.fits(*old(track)),
                l == self.window(),
                l >= 1 || k == from,
                self.is_out ==> from == len - l && to == len,
                !self.is_out ==> from == 0 && to == l,
                track.starting_sample_index == old(track).starting_sample_index,
                track.loudness_num == old(track).loudness_num,
                track.loudness_den == old(track).loudness_den,
                track.loudness_den >= 1,
                track.spec_end() <= usize::MAX,
                forall|j: int| k <= j < len ==> #[trigger] track.track@[j] == old(track).track@[j],
                forall|j: int| 0 <= j < from ==> #[trigger] track.track@[j] == old(track).track@[j],
                forall|j: int|
                    from <= j < k ==> #[trigger] track.track@[j] == self.faded(*old(track))[j],
                forall|j: int|
                    0 <= j < len ==> abs_i(#[trigger] track.track@[j] as int) <= abs_i(
                        old(track).track@[j] as int,
                    ),
                forall|j: int|
                    0 <= j < len ==> Track::sample_ok(
                        #[trigger] old(track).track@[j] as int,
                        track.loudness_num as int,
                        track.loudness_den as int,
                    ),
            decreases to - k,
        {
            let s = track.track[k];
            let num: u64 = if self.is_out {
                (len - k) as u64
            } else {
                k as u64
            };
            proof {
                crate::math::lemma_scale_shrinks(s as int, num as int, l as int);
            }
            let w = crate::math::scale_i64(s, num, l as u64);
            track.track.set(k, w);
            proof {
                assert(s == old(track).track@[k as int]);
                assert(-SAMPLE_LIMIT <= scale_down(s as int, num as int, l as int) <= SAMPLE_LIMIT);
                assert(track.track@[k as int] == (scale_down(s as int, num as int, l as int)
                    as i64));
                assert(track.track@[k as int] == self.faded(*old(track))[k as int]);
            }
            k = k + 1;
        }
        proof {
            assert(track.track@ =~= self.faded(*old(track)));
            assert forall|j: int| 0 <= j < track.track@.len() implies Track::sample_ok(
                #[trigger] track.track@[j] as int,
                track.loudness_num as int,
                track.loudness_den as int,
            ) by {
                crate::math::lemma_scale_mag_le(
                    track.track@[j] as int,
                    old(track).track@[j] as int,
                    track.loudness_num as int,
                    track.loudness_den as int,
                );
            }
        }
    }
}

/// Maximum absolute amplitude stored in a sample buffer; zero when empty.
pub open spec fn max_abs(s: Seq<i64>) -> int
    decreases s.len(),
{
    if s.len() == 0 {
        0
    } else {
        let m = max_abs(s.drop_last());
        let a = abs_i(s.last() as int);
        if a >= m {
            a
        } else {
            m
        }
    }
}

/// Every sample's magnitude is at most `max_abs`, and `max_abs` is
/// non-negative.
pub proof fn lemma_max_abs_is_bound(s: Seq<i64>)
    ensures
        max_abs(s) >= 0,
        forall|i: int| 0 <= i < s.len() ==> abs_i(#[trigger] s[i] as int) <= max_abs(s),
    decreases s.len(),
{
    if s.len() > 0 {
        lemma_max_abs_is_bound(s.drop_last());
        assert forall|i: int| 0 <= i < s.len() implies abs_i(#[trigger] s[i] as int) <= max_abs(
            s,
        ) by {
            if i < s.len() - 1 {
                assert(s.drop_last()[i] == s[i]);
            }
        }
    }
}

/// Mixing is commutative: the mixes of `a` with `b` and of `b` with `a`
/// cover the same range and hold the same samples.
pub proof fn lemma_mix_commutative(a: Track, b: Track, m1: Track, m2: Track)
    requires
        Track::is_mix_of(m1, a, b),
        Track::is_mix_of(m2, b, a),
    ensures
        m1.starting_sample_index == m2.starting_sample_index,
        m1.track@ =~= m2.track@,
        m1.loudness_num == m2.loudness_num,
        m1.loudness_den == m2.loudness_den,
{
    let origin = m1.starting_sample_index as int;
    assert forall|k: int| 0 <= k < m1.track@.len() implies m1.track@[k] == m2.track@[k] by {
        assert(m1.sample_at(origin + k) == m1.track@[k] as int);
        assert(m2.sample_at(origin + k) == m2.track@[k] as int);
        assert(m1.sample_at(origin + k) == a.weighted_at(origin + k) + b.weighted_at(origin + k));
        assert(m2.sample_at(origin + k) == b.weighted_at(origin + k) + a.weighted_at(origin + k));
    }
}

/// Mixing is associative: folding three tracks in either grouping gives
/// the same range and the same samples.
pub proof fn lemma_mix_associative(
    a: Track,
    b: Track,
    c: Track,
    ab: Track,
    bc: Track,
    m1: Track,
    m2: Track,
)
    requires
        Track::is_mix_of(ab, a, b),
        Track::is_mix_of(m1, ab, c),
        Track::is_mix_of(bc, b, c),
        Track::is_mix_of(m2, a, bc),
    ensures
        forall|i: int| #[trigger] m1.sample_at(i) == m2.sample_at(i),
        a.track@.len() > 0 && b.track@.len() > 0 && c.track@.len() > 0 ==> {
            &&& m1.starting_sample_index == m2.starting_sample_index
            &&& m1.track@ =~= m2.track@
        },
{
    assert forall|i: int| #[trigger] ab.weighted_at(i) == a.weighted_at(i) + b.weighted_at(i) by {
        crate::math::lemma_scale_identity(ab.sample_at(i), 1);
    }
    assert forall|i: int| #[trigger] bc.weighted_at(i) == b.weighted_at(i) + c.weighted_at(i) by {
        crate::math::lemma_scale_identity(bc.sample_at(i), 1);
    }
    assert forall|i: int| #[trigger] m1.sample_at(i) == m2.sample_at(i) by {
        assert(m1.sample_at(i) == ab.weighted_at(i) + c.weighted_at(i));
        assert(m2.sample_at(i) == a.weighted_at(i) + bc.weighted_at(i));
    }
    if a.track@.len() > 0 && b.track@.len() > 0 && c.track@.len() > 0 {
        assert(ab.track@.len() > 0);
        assert(bc.track@.len() > 0);
        assert(m1.starting_sample_index == m2.starting_sample_index);
        assert(m1.track@.len() == m2.track@.len());
        let origin = m1.starting_sample_index as int;
        assert forall|k: int| 0 <= k < m1.track@.len() implies m1.track@[k] == m2.track@[k] by {
            assert(m1.sample_at(origin + k) == m1.track@[k] as int);
            assert(m2.sample_at(origin + k) == m2.track@[k] as int);
        }
    }
}

/// A linear fade-in starts at exact silence and ends within `1/window`
/// of the sustained level: on a buffer holding full scale everywhere,
/// the first faded sample is zero and the last sample of the window is
/// within `FP_ONE / window + 1` units below full scale.
pub proof fn lemma_fade_in_boundary_values(f: LinearFadeInOut, t: Track)
    requires
        !f.is_out,
        f.fits(t),
        f.window() >= 1,
        forall|k: int| 0 <= k < t.track@.len() ==> #[trigger] t.track@[k] == FP_ONE,
    ensures
        t.track@.len() >= 1 ==> f.faded(t)[0] == 0,
        f.window() >= 2 ==> FP_ONE - (FP_ONE as int) / f.window() - 1 <= f.faded(t)[f.window()
            - 1] < FP_ONE,
{
    let l = f.window();
    let fp = FP_ONE as int;
    if t.track@.len() >= 1 {
        assert(scale_down(fp, 0, l) == 0) by {
            assert(fp * 0 == 0) by (nonlinear_arith);
            vstd::arithmetic::div_mod::lemma_div_of0(l);
        }
        assert(f.faded(t)[0] == 0i64);
    }
    if l >= 2 {
        let v = scale_down(fp, l - 1, l);
        assert(fp * (l - 1) == -fp + fp * l) by (nonlinear_arith);
        assert((-fp) / l + fp == (-fp + fp * l) / l) by {
            vstd::arithmetic::div_mod::lemma_hoist_over_denominator(-fp, fp, l as nat);
        }
        assert(v == (-fp) / l + fp);
        let q = (-fp) / l;
        let r = (-fp) % l;
        let p = fp / l;
        let s = fp % l;
        vstd::arithmetic::div_mod::lemma_fundamental_div_mod(-fp, l);
        vstd::arithmetic::div_mod::lemma_mod_division_less_than_divisor(-fp, l);
        vstd::arithmetic::div_mod::lemma_fundamental_div_mod(fp, l);
        vstd::arithmetic::div_mod::lemma_mod_division_less_than_divisor(fp, l);
        vstd::arithmetic::div_mod::lemma_div_pos_is_pos(fp, l);
        assert(l * q + r == -fp);
        assert(l * p + s == fp);
        assert(l * (q + p) == -(r + s)) by (nonlinear_arith)
            requires
                l * q + r == -fp,
                l * p + s == fp,
        ;
        assert(q + p == -1 || q + p == 0) by (nonlinear_arith)
            requires
                l * (q + p) == -(r + s),
                0 <= r < l,
                0 <= s < l,
                l >= 1,
        ;
        assert(q >= -p - 1);
        assert(q <= -1) by (nonlinear_arith)
            requires
                l * q + r == -fp,
                0 <= r < l,
                l >= 1,
                fp >= 1,
        ;
        assert(fp - fp / l - 1 <= v < fp);
        assert(f.faded(t)[l - 1] == (v as i64));
        assert(-SAMPLE_LIMIT <= v <= SAMPLE_LIMIT);
    }
}

/// After `normalize` and `apply_loudness`, the loudest sample sits at
/// exactly full scale and nothing exceeds it: scaling by
/// `FP_ONE / max_abs` bounds every magnitude by `FP_ONE` and attains it.
pub proof fn lemma_normalize_apply_reaches_full_scale(s: Seq<i64>)
    requires
        max_abs(s) >= 1,
    ensures
        forall|k: int|
            0 <= k < s.len() ==> abs_i(
                scale_down(#[trigger] s[k] as int, FP_ONE as int, max_abs(s)),
            ) <= FP_ONE,
        exists|k: int|
            0 <= k < s.len() && abs_i(
                scale_down(#[trigger] s[k] as int, FP_ONE as int, max_abs(s)),
            ) == FP_ONE,
{
    let m = max_abs(s);
    let fp = FP_ONE as int;
    lemma_max_abs_is_bound(s);
    assert((m * fp) / m == fp) by {
        assert(m * fp == fp * m) by (nonlinear_arith);
        vstd::arithmetic::div_mod::lemma_div_by_multiple(fp, m);
    }
    assert forall|k: int| 0 <= k < s.len() implies abs_i(
        scale_down(#[trigger] s[k] as int, fp, m),
    ) <= fp by {
        crate::math::lemma_scale_down_mag(s[k] as int, fp, m);
        assert(abs_i(s[k] as int) * fp <= m * fp) by (nonlinear_arith)
            requires
                0 <= abs_i(s[k] as int) <= m,
                fp >= 0,
        ;
        vstd::arithmetic::div_mod::lemma_div_is_ordered(abs_i(s[k] as int) * fp, m * fp, m);
    }
    lemma_max_abs_attained(s);
    let j = choose|i: int| 0 <= i < s.len() && abs_i(#[trigger] s[i] as int) == m;
    crate::math::lemma_scale_down_mag(s[j] as int, fp, m);
    assert(abs_i(scale_down(s[j] as int, fp, m)) == fp);
}

/// A buffer already at full scale is a fixed point: scaling by
/// `FP_ONE / max_abs` changes nothing, so a second `normalize` followed
/// by `apply_loudness` leaves every sample as it was.
pub proof fn lemma_normalize_apply_idempotent(s: Seq<i64>)
    requires
        max_abs(s) == FP_ONE,
    ensures
        forall|k: int|
            0 <= k < s.len() ==> scale_down(#[trigger] s[k] as int, FP_ONE as int, max_abs(s))
                == s[k] as int,
{
    assert forall|k: int| 0 <= k < s.len() implies scale_down(
        #[trigger] s[k] as int,
        FP_ONE as int,
        max_abs(s),
    ) == s[k] as int by {
        crate::math::lemma_scale_identity(s[k] as int, FP_ONE as int);
    }
}

/// A buffer whose magnitudes are bounded by `m` and attain it has
/// `max_abs` exactly `m`.
pub proof fn lemma_max_abs_from_bounds(s: Seq<i64>, m: int)
    requires
        forall|k: int| 0 <= k < s.len() ==> abs_i(#[trigger] s[k] as int) <= m,
        exists|k: int| 0 <= k < s.len() && abs_i(#[trigger] s[k] as int) == m,
    ensures
        max_abs(s) == m,
{
    lemma_max_abs_is_bound(s);
    lemma_max_abs_attained(s);
    let j = choose|i: int| 0 <= i < s.len() && abs_i(#[trigger] s[i] as int) == max_abs(s);
    let k0 = choose|k: int| 0 <= k < s.len() && abs_i(#[trigger] s[k] as int) == m;
    assert(max_abs(s) <= m);
    assert(max_abs(s) >= abs_i(s[k0] as int));
}

/// A non-empty buffer attains its maximum absolute amplitude.
pub proof fn lemma_max_abs_attained(s: Seq<i64>)
    requires
        s.len() > 0,
    ensures
        exists|i: int| 0 <= i < s.len() && abs_i(#[trigger] s[i] as int) == max_abs(s),
    decreases s.len(),
{
    if abs_i(s.last() as int) == max_abs(s) {
        assert(0 <= s.len() - 1 < s.len() && abs_i(s[s.len() - 1] as int) == max_abs(s));
    } else {
        assert(s.len() > 1) by {
            if s.len() == 1 {
                assert(max_abs(s.drop_last()) == 0);
            }
        }
        lemma_max_abs_attained(s.drop_last());
        let j = choose|i: int|
            0 <= i < s.drop_last().len() && abs_i(#[trigger] s.drop_last()[i] as int) == max_abs(
                s.drop_last(),
            );
        assert(s[j] == s.drop_last()[j]);
        assert(abs_i(s[j] as int) == max_abs(s));
    }
}

} // verus!
