//! PCM encoding: turning a resampled fixed-point sample sequence into the
//! byte sequence stored in a WAV file's data chunk, at 8 or 16 bits per
//! sample.

use vstd::prelude::*;
use crate::math::{abs_i, resample_at, resample_len, scale_down, FP_ONE, SAMPLE_LIMIT};
use crate::track::DESIRED_SAMPLE_RATE;

verus! {

/// The 8-bit quantization of a fixed-point amplitude in
/// `[-FP_ONE, FP_ONE]`: `(x + 1.0) * 127` truncated, an unsigned byte.
pub open spec fn pcm8_encode(s: int) -> int {
    ((s + FP_ONE) * 127) / FP_ONE as int
}

/// The 16-bit quantization of a fixed-point amplitude in
/// `[-FP_ONE, FP_ONE]`: `x * 32760` truncated toward zero.
pub open spec fn pcm16_encode(s: int) -> int {
    scale_down(s, 32760, FP_ONE as int)
}

/// The two's-complement unsigned value of a 16-bit signed quantity.
pub open spec fn u16_of_i16(v: int) -> int {
    if v >= 0 {
        v
    } else {
        v + 0x10000
    }
}

/// The quantization is within bounds: `0 .. 254` for 8 bits, and
/// magnitude at most `32760` for 16 bits.
pub proof fn lemma_pcm_encode_bounds(s: int)
    requires
        -FP_ONE <= s <= FP_ONE,
    ensures
        0 <= pcm8_encode(s) <= 254,
        -32760 <= pcm16_encode(s) <= 32760,
{
    let fp = FP_ONE as int;
    assert(0 <= (s + fp) * 127 <= 2 * fp * 127) by (nonlinear_arith)
        requires
            0 <= s + fp <= 2 * fp,
    ;
    vstd::arithmetic::div_mod::lemma_div_pos_is_pos((s + fp) * 127, fp);
    assert(((2 * fp) * 127) / fp == 254) by {
        assert((2 * fp) * 127 == 254 * fp) by (nonlinear_arith);
        vstd::arithmetic::div_mod::lemma_div_by_multiple(254, fp);
    }
    vstd::arithmetic::div_mod::lemma_div_is_ordered((s + fp) * 127, (2 * fp) * 127, fp);
    crate::math::lemma_scale_down_mag(s, 32760, fp);
    assert(abs_i(s) * 32760 <= fp * 32760) by (nonlinear_arith)
        requires
            0 <= abs_i(s) <= fp,
    ;
    assert((fp * 32760) / fp == 32760) by {
        assert(fp * 32760 == 32760 * fp) by (nonlinear_arith);
        vstd::arithmetic::div_mod::lemma_div_by_multiple(32760, fp);
    }
    vstd::arithmetic::div_mod::lemma_div_is_ordered(abs_i(s) * 32760, fp * 32760, fp);
    assert(abs_i(s) * 32760 >= 0) by (nonlinear_arith)
        requires
            abs_i(s) >= 0,
    ;
    vstd::arithmetic::div_mod::lemma_div_pos_is_pos(abs_i(s) * 32760, fp);
}

/// A container for encoded PCM samples: what the WAV data chunk will
/// hold, together with the format fields the header needs.
pub trait WaveData: Sized {
    /// Bits per encoded sample.
    spec fn spec_bits() -> u16;

    /// The container format's encoding tag: `1` for integer PCM,
    /// `3` for IEEE float.
    spec fn spec_encoding() -> u16;

    /// How many samples have been pushed.
    spec fn count(&self) -> nat;

    /// The bytes the samples encode to, in file order.
    spec fn data_bytes(&self) -> Seq<u8>;

    /// The bytes one fixed-point sample encodes to.
    spec fn sample_bytes(data: i64) -> Seq<u8>;

    /// An empty container.
    fn new() -> (r: Self)
        ensures
            r.count() == 0,
            r.data_bytes() == Seq::<u8>::empty(),
    ;

    /// Number of samples pushed so far.
    fn len(&self) -> (r: usize)
        ensures
            r == self.count(),
    ;

    /// Bits per encoded sample.
    fn get_bits_per_sample(&self) -> (r: u16)
        ensures
            r == Self::spec_bits(),
    ;

    /// The container format's encoding tag.
    fn get_encoding(&self) -> (r: u16)
        ensures
            r == Self::spec_encoding(),
    ;

    /// Size of the encoded data in bytes.
    fn get_size_in_bytes(&self) -> (r: u32)
        requires
            self.data_bytes().len() <= u32::MAX,
        ensures
            r == self.data_bytes().len(),
    ;

    /// The encoded data, in file order.
    fn to_byte_slice(&self) -> (r: Vec<u8>)
        ensures
            r@ == self.data_bytes(),
    ;

    /// Quantizes one fixed-point sample and appends its bytes.  The
    /// amplitude must already be normalized into `[-1.0, 1.0]`; anything
    /// outside signals an upstream normalization bug.
    fn push_sample_data_from_fp(&mut self, data: i64)
        requires
            -FP_ONE <= data <= FP_ONE,
            old(self).count() + 1 <= usize::MAX,
        ensures
            final(self).count() == old(self).count() + 1,
            final(self).data_bytes() == old(self).data_bytes() + Self::sample_bytes(data),
    ;
}

/// 8-bit unsigned PCM: one byte per sample.
impl WaveData for Vec<u8> {
    open spec fn spec_bits() -> u16 {
        8
    }

    open spec fn spec_encoding() -> u16 {
        1
    }

    open spec fn count(&self) -> nat {
        self@.len()
    }

    open spec fn data_bytes(&self) -> Seq<u8> {
        self@
    }

    open spec fn sample_bytes(data: i64) -> Seq<u8> {
        seq![pcm8_encode(data as int) as u8]
    }

    fn new() -> (r: Self) {
        let r: Vec<u8> = Vec::new();
        r
    }

    fn len(&self) -> (r: usize) {
        let n: usize = Vec::len(self);
        n
    }

    fn get_bits_per_sample(&self) -> (r: u16) {
        8
    }

    fn get_encoding(&self) -> (r: u16) {
        1
    }

    fn get_size_in_bytes(&self) -> (r: u32) {
        let n: usize = Vec::len(self);
        n as u32
    }

    fn to_byte_slice(&self) -> (r: Vec<u8>) {
        let mut out: Vec<u8> = Vec::new();
        let mut i: usize = 0;
        let n: usize = Vec::len(self);
        while i < n
            invariant
                0 <= i <= n,
                n == self@.len(),
                out@.len() == i,
                forall|j: int| 0 <= j < i ==> out@[j] == self@[j],
            decreases n - i,
        {
            out.push(self[i]);
            i = i + 1;
        }
        proof {
            assert(out@ =~= self@);
        }
        out
    }

    fn push_sample_data_from_fp(&mut self, data: i64) {
        proof {
            lemma_pcm_encode_bounds(data as int);
        }
        let b: u64 = ((data + FP_ONE) as u64) * 127 / (FP_ONE as u64);
        assert(b == pcm8_encode(data as int));
        self.push(b as u8);
        proof {
            assert(self@ =~= old(self)@ + Self::sample_bytes(data));
        }
    }
}

/// 16-bit signed little-endian PCM: two bytes per sample.
impl WaveData for Vec<i16> {
    open spec fn spec_bits() -> u16 {
        16
    }

    open spec fn spec_encoding() -> u16 {
        1
    }

    open spec fn count(&self) -> nat {
        self@.len()
    }

    open spec fn data_bytes(&self) -> Seq<u8> {
        Seq::new(
            2 * self@.len(),
            |j: int|
                if j % 2 == 0 {
                    (u16_of_i16(self@[j / 2] as int) % 256) as u8
                } else {
                    (u16_of_i16(self@[j / 2] as int) / 256) as u8
                },
        )
    }

    open spec fn sample_bytes(data: i64) -> Seq<u8> {
        seq![
            (u16_of_i16(pcm16_encode(data as int)) % 256) as u8,
            (u16_of_i16(pcm16_encode(data as int)) / 256) as u8,
        ]
    }

    fn new() -> (r: Self) {
        let r: Vec<i16> = Vec::new();
        proof {
            assert(r.data_bytes() =~= Seq::<u8>::empty());
        }
        r
    }

    fn len(&self) -> (r: usize) {
        let n: usize = Vec::len(self);
        n
    }

    fn get_bits_per_sample(&self) -> (r: u16) {
        16
    }

    fn get_encoding(&self) -> (r: u16) {
        1
    }

    fn get_size_in_bytes(&self) -> (r: u32) {
        let n: usize = Vec::len(self);
        proof {
            assert(self.data_bytes().len() == 2 * self@.len());
        }
        (n as u32) * 2
    }

    fn to_byte_slice(&self) -> (r: Vec<u8>) {
        let mut out: Vec<u8> = Vec::new();
        let mut i: usize = 0;
        let n: usize = Vec::len(self);
        while i < n
            invariant
                0 <= i <= n,
                n == self@.len(),
                out@.len() == 2 * i,
                forall|j: int| 0 <= j < 2 * i ==> out@[j] == self.data_bytes()[j],
            decreases n - i,
        {
            let v: i16 = self[i];
            let u: u16 = if v >= 0 {
                v as u16
            } else {
                ((v as i32) + 0x10000) as u16
            };
            assert(u == u16_of_i16(v as int));
            out.push((u % 256) as u8);
            out.push((u / 256) as u8);
            proof {
                assert(out@[2 * i as int] == self.data_bytes()[2 * i as int]);
                assert(out@[2 * i as int + 1] == self.data_bytes()[2 * i as int + 1]);
            }
            i = i + 1;
        }
        proof {
            assert(out@ =~= self.data_bytes());
        }
        out
    }

    fn push_sample_data_from_fp(&mut self, data: i64) {
        proof {
            lemma_pcm_encode_bounds(data as int);
        }
        let v: i64 = crate::math::scale_i64(data, 32760, FP_ONE as u64);
        let v16: i16 = v as i16;
        self.push(v16);
        proof {
            assert(v16 as int == pcm16_encode(data as int));
            assert(self.data_bytes() =~= old(self).data_bytes() + Self::sample_bytes(data));
        }
    }
}

/// The byte stream a sequence of fixed-point samples encodes to.
pub open spec fn encoded_stream<T: WaveData>(s: Seq<i64>) -> Seq<u8>
    decreases s.len(),
{
    if s.len() == 0 {
        Seq::<u8>::empty()
    } else {
        encoded_stream::<T>(s.drop_last()) + T::sample_bytes(s.last())
    }
}

/// Resamples a track's buffer from the internal rate to `sample_rate`
/// and quantizes every resulting sample into `out`.  Every source
/// amplitude must lie in `[-1.0, 1.0]`: a violation would mean the
/// upstream mix or normalize step failed.
pub fn generate_from_wave<T: WaveData>(out: &mut T, wave: &Vec<i64>, sample_rate: u32)
    requires
        old(out).count() == 0,
        old(out).data_bytes() == Seq::<u8>::empty(),
        sample_rate >= DESIRED_SAMPLE_RATE,
        forall|i: int| 0 <= i < wave@.len() ==> -FP_ONE <= #[trigger] wave@[i] <= FP_ONE,
        resample_len(wave@.len(), DESIRED_SAMPLE_RATE as int, sample_rate as int) <= usize::MAX,
    ensures
        final(out).count() == resample_len(
            wave@.len(),
            DESIRED_SAMPLE_RATE as int,
            sample_rate as int,
        ),
        final(out).data_bytes() == encoded_stream::<T>(
            resampled_seq(wave@, DESIRED_SAMPLE_RATE as int, sample_rate as int),
        ),
{
    proof {
        assert forall|i: int| 0 <= i < wave@.len() implies -SAMPLE_LIMIT <= #[trigger] wave@[i]
            <= SAMPLE_LIMIT by {}
    }
    let data = crate::math::linerp_from_sample_rate(wave, DESIRED_SAMPLE_RATE, sample_rate);
    let ghost rs = resampled_seq(wave@, DESIRED_SAMPLE_RATE as int, sample_rate as int);
    proof {
        assert forall|k: int| 0 <= k < data@.len() implies -FP_ONE <= #[trigger] data@[k]
            <= FP_ONE by {
            crate::math::lemma_resample_bounded(
                wave@,
                DESIRED_SAMPLE_RATE as int,
                sample_rate as int,
                FP_ONE as int,
                k,
            );
        }
        assert(data@ =~= rs) by {
            assert forall|k: int| 0 <= k < data@.len() implies data@[k] == rs[k] by {
                crate::math::lemma_resample_bounded(
                    wave@,
                    DESIRED_SAMPLE_RATE as int,
                    sample_rate as int,
                    SAMPLE_LIMIT as int,
                    k,
                );
            }
        }
    }
    let n = data.len();
    let mut i: usize = 0;
    while i < n
        invariant
            0 <= i <= n,
            n == data@.len(),
            data@ == rs,
            forall|k: int|
                0 <= k < data@.len() ==> -FP_ONE <= #[trigger] data@[k] <= FP_ONE,
            out.count() == i,
            out.data_bytes() == encoded_stream::<T>(data@.take(i as int)),
        decreases n - i,
    {
        out.push_sample_data_from_fp(data[i]);
        proof {
            assert(data@.take(i + 1).drop_last() =~= data@.take(i as int));
            assert(data@.take(i + 1).last() == data@[i as int]);
        }
        i = i + 1;
    }
    proof {
        assert(data@.take(n as int) =~= data@);
    }
}

/// The resampled buffer as a sequence of fixed-point samples; the
/// interpolated values fit because they lie between their neighbours.
pub open spec fn resampled_seq(s: Seq<i64>, old_rate: int, new_rate: int) -> Seq<i64> {
    Seq::new(
        resample_len(s.len(), old_rate, new_rate),
        |k: int| resample_at(s, old_rate, new_rate, k) as i64,
    )
}

} // verus!
