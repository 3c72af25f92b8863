//! A small audio synthesis library: a fixed-point sample buffer (`Track`)
//! with mixing, resampling and fade envelopes, PCM encoding at 8 or 16 bits,
//! and byte-exact WAV container assembly.
//!
//! Amplitudes and times are fixed-point numbers: the value `1.0` (full scale,
//! or one second) is `FP_ONE` units.

pub mod harmonics;
pub mod instruments;
pub mod math;
pub mod track;
pub mod wave_data;

use vstd::prelude::*;
use crate::harmonics::{
    all_digits,
    copy_range,
    digits_val,
    find_byte_from,
    find_pos,
    fraction_val,
    int_token_val,
    is_fraction_token,
    is_int_token,
    lemma_find_pos_unique,
    parse_digits,
    parse_fraction,
    parse_i64,
};
use crate::math::FP_ONE;
use crate::wave_data::WaveData;

verus! {

/// The two bytes of a 16-bit value, little-endian.
pub open spec fn le16(v: int) -> Seq<u8> {
    seq![(v % 256) as u8, ((v / 256) % 256) as u8]
}

/// The four bytes of a 32-bit value, little-endian.
pub open spec fn le32(v: int) -> Seq<u8> {
    seq![
        (v % 256) as u8,
        ((v / 256) % 256) as u8,
        ((v / 65536) % 256) as u8,
        ((v / 16777216) % 256) as u8,
    ]
}

/// Everything needed to write one WAV file: the header fields, all
/// derived from the format and the encoded data's length, and the
/// encoded data itself.
pub struct WavConfig {
    /// Path the file should be written to.
    pub file_name: String,
    /// Total file size minus eight: encoded length plus 36 header bytes.
    pub chunk_size: u32,
    /// `1` for integer PCM, `3` for IEEE float.
    pub encoding: u16,
    /// Number of interleaved channels.
    pub num_channels: u16,
    /// Samples per second.
    pub sample_rate: u32,
    /// Average bytes per second of audio.
    pub byte_rate: u32,
    /// Bytes per sample frame over all channels.
    pub block_align: u16,
    /// Bits per sample of one channel.
    pub bits_per_sample: u16,
    /// Length in bytes of the encoded data.
    pub subchunk_2_size: u32,
    /// The encoded sample data.
    pub sound: Vec<u8>,
}

/// The canonical 44-byte RIFF/WAVE/fmt/data header: ASCII tags, then
/// each numeric field little-endian at its fixed offset.
pub open spec fn spec_wav_header(c: WavConfig) -> Seq<u8> {
    seq![0x52u8, 0x49u8, 0x46u8, 0x46u8] + le32(c.chunk_size as int) + seq![
        0x57u8,
        0x41u8,
        0x56u8,
        0x45u8,
        0x66u8,
        0x6du8,
        0x74u8,
        0x20u8,
        0x10u8,
        0u8,
        0u8,
        0u8,
    ] + le16(c.encoding as int) + le16(c.num_channels as int) + le32(c.sample_rate as int) + le32(
        c.byte_rate as int,
    ) + le16(c.block_align as int) + le16(c.bits_per_sample as int) + seq![
        0x64u8,
        0x61u8,
        0x74u8,
        0x61u8,
    ] + le32(c.subchunk_2_size as int)
}

/// Appends a 16-bit value's little-endian bytes.
fn push_le16(out: &mut Vec<u8>, v: u16)
    ensures
        final(out)@ == old(out)@ + le16(v as int),
{
    out.push((v % 256) as u8);
    out.push((v / 256) as u8);
    proof {
        assert(out@ =~= old(out)@ + le16(v as int));
    }
}

/// Appends a 32-bit value's little-endian bytes.
fn push_le32(out: &mut Vec<u8>, v: u32)
    ensures
        final(out)@ == old(out)@ + le32(v as int),
{
    out.push((v % 256) as u8);
    out.push(((v / 256) % 256) as u8);
    out.push(((v / 65536) % 256) as u8);
    out.push((v / 16777216) as u8);
    proof {
        assert(v / 16777216 < 256) by (nonlinear_arith)
            requires
                v <= 0xffff_ffff,
        ;
        assert(out@ =~= old(out)@ + le32(v as int));
    }
}

impl WavConfig {
    /// Derives every header field from the channel count, sample rate
    /// and the encoded sound data.
    pub fn new<T: WaveData>(file_name: String, num_channels: u16, sample_rate: u32, sound: T) -> (r:
        WavConfig)
        requires
            sound.data_bytes().len() + 36 <= u32::MAX,
            (sample_rate as int) * (T::spec_bits() as int) * (num_channels as int) / 8
                <= u32::MAX,
            (T::spec_bits() as int) / 8 * (num_channels as int) <= u16::MAX,
        ensures
            r.file_name@ == file_name@,
            r.chunk_size == sound.data_bytes().len() + 36,
            r.encoding == T::spec_encoding(),
            r.num_channels == num_channels,
            r.sample_rate == sample_rate,
            r.byte_rate == (sample_rate as int) * (T::spec_bits() as int) * (num_channels as int)
                / 8,
            r.block_align == (T::spec_bits() as int) / 8 * (num_channels as int),
            r.bits_per_sample == T::spec_bits(),
            r.subchunk_2_size == sound.data_bytes().len(),
            r.sound@ == sound.data_bytes(),
    {
        let sound_bytes = sound.to_byte_slice();
        let bits_per_sample: u16 = sound.get_bits_per_sample();
        let encoding: u16 = sound.get_encoding();
        let subchunk_2_size: u32 = sound_bytes.len() as u32;
        let chunk_size: u32 = subchunk_2_size + 36;
        proof {
            assert((sample_rate as int) * (bits_per_sample as int) <= (u32::MAX as int) * (
            u16::MAX as int)) by (nonlinear_arith)
                requires
                    0 <= sample_rate <= u32::MAX,
                    0 <= bits_per_sample <= u16::MAX,
            ;
            assert((sample_rate as int) * (bits_per_sample as int) * (num_channels as int) <= (
            u32::MAX as int) * (u16::MAX as int) * (u16::MAX as int)) by (nonlinear_arith)
                requires
                    0 <= (sample_rate as int) * (bits_per_sample as int) <= (u32::MAX as int) * (
                    u16::MAX as int),
                    0 <= num_channels <= u16::MAX,
            ;
            assert((sample_rate as int) * (bits_per_sample as int) * (num_channels as int) >= 0)
                by (nonlinear_arith)
                requires
                    sample_rate >= 0,
                    bits_per_sample >= 0,
                    num_channels >= 0,
            ;
            vstd::arithmetic::div_mod::lemma_div_pos_is_pos(
                (sample_rate as int) * (bits_per_sample as int) * (num_channels as int),
                8,
            );
        }
        let byte_rate: u32 = ((sample_rate as u64) * (bits_per_sample as u64) * (num_channels
            as u64) / 8) as u32;
        let block_align: u16 = bits_per_sample / 8 * num_channels;
        WavConfig {
            file_name,
            chunk_size,
            encoding,
            num_channels,
            sample_rate,
            byte_rate,
            block_align,
            bits_per_sample,
            subchunk_2_size,
            sound: sound_bytes,
        }
    }

    /// Builds a configuration from already-encoded bytes and an
    /// explicitly given format; the seam through which sample formats
    /// the library cannot encode itself (IEEE float data) are written.
    pub fn from_encoded(
        file_name: String,
        num_channels: u16,
        sample_rate: u32,
        bits_per_sample: u16,
        encoding: u16,
        sound: Vec<u8>,
    ) -> (r: WavConfig)
        requires
            sound@.len() + 36 <= u32::MAX,
            (sample_rate as int) * (bits_per_sample as int) * (num_channels as int) / 8
                <= u32::MAX,
            (bits_per_sample as int) / 8 * (num_channels as int) <= u16::MAX,
        ensures
            r.file_name@ == file_name@,
            r.chunk_size == sound@.len() + 36,
            r.encoding == encoding,
            r.num_channels == num_channels,
            r.sample_rate == sample_rate,
            r.byte_rate == (sample_rate as int) * (bits_per_sample as int) * (num_channels as int)
                / 8,
            r.block_align == (bits_per_sample as int) / 8 * (num_channels as int),
            r.bits_per_sample == bits_per_sample,
            r.subchunk_2_size == sound@.len(),
            r.sound@ == sound@,
    {
        let subchunk_2_size: u32 = sound.len() as u32;
        let chunk_size: u32 = subchunk_2_size + 36;
        proof {
            assert((sample_rate as int) * (bits_per_sample as int) <= (u32::MAX as int) * (
            u16::MAX as int)) by (nonlinear_arith)
                requires
                    0 <= sample_rate <= u32::MAX,
                    0 <= bits_per_sample <= u16::MAX,
            ;
            assert((sample_rate as int) * (bits_per_sample as int) * (num_channels as int) <= (
            u32::MAX as int) * (u16::MAX as int) * (u16::MAX as int)) by (nonlinear_arith)
                requires
                    0 <= (sample_rate as int) * (bits_per_sample as int) <= (u32::MAX as int) * (
                    u16::MAX as int),
                    0 <= num_channels <= u16::MAX,
            ;
            assert((sample_rate as int) * (bits_per_sample as int) * (num_channels as int) >= 0)
                by (nonlinear_arith)
                requires
                    sample_rate >= 0,
                    bits_per_sample >= 0,
                    num_channels >= 0,
            ;
            vstd::arithmetic::div_mod::lemma_div_pos_is_pos(
                (sample_rate as int) * (bits_per_sample as int) * (num_channels as int),
                8,
            );
        }
        let byte_rate: u32 = ((sample_rate as u64) * (bits_per_sample as u64) * (num_channels
            as u64) / 8) as u32;
        let block_align: u16 = bits_per_sample / 8 * num_channels;
        WavConfig {
            file_name,
            chunk_size,
            encoding,
            num_channels,
            sample_rate,
            byte_rate,
            block_align,
            bits_per_sample,
            subchunk_2_size,
            sound,
        }
    }

    /// Writes out the canonical 44-byte RIFF/WAVE header, byte-exact.
    pub fn assemble_header(&self) -> (r: Vec<u8>)
        ensures
            r@ == spec_wav_header(*self),
            r@.len() == 44,
    {
        let mut header: Vec<u8> = Vec::new();
        // "RIFF"
        header.push(0x52);
        header.push(0x49);
        header.push(0x46);
        header.push(0x46);
        // size of the file minus 8
        push_le32(&mut header, self.chunk_size);
        // "WAVE", "fmt ", format subchunk size 16
        header.push(0x57);
        header.push(0x41);
        header.push(0x56);
        header.push(0x45);
        header.push(0x66);
        header.push(0x6d);
        header.push(0x74);
        header.push(0x20);
        header.push(0x10);
        header.push(0x00);
        header.push(0x00);
        header.push(0x00);
        // encoding tag, channel count, sample rate, byte rate
        push_le16(&mut header, self.encoding);
        push_le16(&mut header, self.num_channels);
        push_le32(&mut header, self.sample_rate);
        push_le32(&mut header, self.byte_rate);
        // block align and bits per sample
        push_le16(&mut header, self.block_align);
        push_le16(&mut header, self.bits_per_sample);
        // "data" and the data chunk's byte length
        header.push(0x64);
        header.push(0x61);
        header.push(0x74);
        header.push(0x61);
        push_le32(&mut header, self.subchunk_2_size);
        proof {
            assert(header@ =~= spec_wav_header(*self));
        }
        header
    }
}

/// Whether a byte is ASCII whitespace as the sheet format knows it.
pub open spec fn is_space(b: u8) -> bool {
    b == 32 || b == 9 || b == 10 || b == 13
}

/// The byte string with leading and trailing whitespace removed.
pub open spec fn spec_trim(s: Seq<u8>) -> Seq<u8>
    decreases s.len(),
{
    if s.len() == 0 {
        s
    } else if is_space(s[0]) {
        spec_trim(s.subrange(1, s.len() as int))
    } else if is_space(s[s.len() - 1]) {
        spec_trim(s.subrange(0, s.len() - 1))
    } else {
        s
    }
}

/// The trimmed string is the subrange between the first and last
/// non-space bytes.
proof fn lemma_spec_trim_is_subrange(s: Seq<u8>, a: int, b: int)
    requires
        0 <= a,
        b < s.len(),
        a <= b + 1,
        forall|j: int| 0 <= j < a ==> is_space(#[trigger] s[j]),
        forall|j: int| b < j < s.len() ==> is_space(#[trigger] s[j]),
        a <= b ==> !is_space(s[a]) && !is_space(s[b]),
    ensures
        spec_trim(s) =~= s.subrange(a, b + 1),
    decreases s.len(),
{
    if s.len() == 0 {
    } else if a > b {
        assert forall|j: int| 0 <= j < s.len() implies is_space(#[trigger] s[j]) by {
            if j < a {
            } else {
                assert(j > b);
            }
        }
        let tail = s.subrange(1, s.len() as int);
        assert forall|j: int| 0 <= j < tail.len() implies is_space(#[trigger] tail[j]) by {
            assert(tail[j] == s[j + 1]);
        }
        lemma_spec_trim_is_subrange(tail, tail.len() as int, tail.len() - 1);
        assert(spec_trim(s) == spec_trim(tail));
        assert(spec_trim(s) =~= s.subrange(a, b + 1));
    } else if is_space(s[0]) {
        let tail = s.subrange(1, s.len() as int);
        assert(a >= 1);
        assert forall|j: int| 0 <= j < a - 1 implies is_space(#[trigger] tail[j]) by {
            assert(tail[j] == s[j + 1]);
        }
        assert forall|j: int| b - 1 < j < tail.len() implies is_space(#[trigger] tail[j]) by {
            assert(tail[j] == s[j + 1]);
        }
        lemma_spec_trim_is_subrange(tail, a - 1, b - 1);
        assert(tail.subrange(a - 1, b) =~= s.subrange(a, b + 1));
    } else if is_space(s[s.len() - 1]) {
        let head = s.subrange(0, s.len() - 1);
        assert(b <= s.len() - 2);
        assert forall|j: int| 0 <= j < a implies is_space(#[trigger] head[j]) by {
            assert(head[j] == s[j]);
        }
        assert forall|j: int| b < j < head.len() implies is_space(#[trigger] head[j]) by {
            assert(head[j] == s[j]);
        }
        lemma_spec_trim_is_subrange(head, a, b);
        assert(head.subrange(a, b + 1) =~= s.subrange(a, b + 1));
    } else {
        assert(a == 0);
        assert(b == s.len() - 1);
        assert(s.subrange(0, s.len() as int) =~= s);
    }
}

/// Strips leading and trailing whitespace.
pub fn trim_bytes(s: &[u8]) -> (r: Vec<u8>)
    ensures
        r@ == spec_trim(s@),
{
    let n = s.len();
    let mut a: usize = 0;
    while a < n && (s[a] == 32 || s[a] == 9 || s[a] == 10 || s[a] == 13)
        invariant
            0 <= a <= n,
            n == s@.len(),
            forall|j: int| 0 <= j < a ==> is_space(#[trigger] s@[j]),
        decreases n - a,
    {
        a = a + 1;
    }
    if a == n {
        proof {
            if n > 0 {
                lemma_spec_trim_is_subrange(s@, n as int, n as int - 1);
            }
            assert(spec_trim(s@) =~= Seq::<u8>::empty());
        }
        let r: Vec<u8> = Vec::new();
        return r;
    }
    let mut b: usize = n - 1;
    while b > a && (s[b] == 32 || s[b] == 9 || s[b] == 10 || s[b] == 13)
        invariant
            a <= b < n,
            n == s@.len(),
            forall|j: int| b < j < n ==> is_space(#[trigger] s@[j]),
        decreases b,
    {
        b = b - 1;
    }
    proof {
        lemma_spec_trim_is_subrange(s@, a as int, b as int);
    }
    copy_range(s, a, b + 1)
}

/// How the sheet interpreter reads one (lowercased, trimmed) line.
pub enum SheetLine {
    /// A comment or an empty line; skipped.
    Ignored,
    /// The keyword flushing the collected notes into the instrument.
    Record,
    /// The keyword ending the piece.
    End,
    /// A keyword line that is neither `record` nor `end`; an error.
    BadKeyword,
    /// A bar of notes: the bar number's text ends at the first comma.
    NoteBar {
        /// Index of the first comma.
        first_comma: usize,
    },
    /// A configuration line: an instrument choice or a global setting.
    Config {
        /// Index of the first colon.
        first_colon: usize,
        /// Index of the first comma, if the line has one.
        first_comma: Option<usize>,
    },
}

/// The bytes of the keyword "record".
pub open spec fn record_bytes() -> Seq<u8> {
    seq![114u8, 101u8, 99u8, 111u8, 114u8, 100u8]
}

/// The bytes of the keyword "end".
pub open spec fn end_bytes() -> Seq<u8> {
    seq![101u8, 110u8, 100u8]
}

/// What a line means: empty lines and `#` comments are skipped; a line
/// without colon or comma is a keyword; a line with a comma but no
/// colon is a bar of notes; a line with a colon is configuration.
pub open spec fn spec_classify(line: Seq<u8>) -> SheetLine {
    if line.len() == 0 || line[0] == 35 {
        SheetLine::Ignored
    } else {
        let pc = find_pos(line, 58);
        let pm = find_pos(line, 44);
        if pc == line.len() {
            if pm == line.len() {
                if line == record_bytes() {
                    SheetLine::Record
                } else if line == end_bytes() {
                    SheetLine::End
                } else {
                    SheetLine::BadKeyword
                }
            } else {
                SheetLine::NoteBar { first_comma: pm as usize }
            }
        } else {
            SheetLine::Config {
                first_colon: pc as usize,
                first_comma: if pm == line.len() {
                    None
                } else {
                    Some(pm as usize)
                },
            }
        }
    }
}

/// Classifies one lowercased, trimmed sheet line.
pub fn classify_line(line: &[u8]) -> (r: SheetLine)
    ensures
        r == spec_classify(line@),
{
    let n = line.len();
    if n == 0 || line[0] == 35 {
        return SheetLine::Ignored;
    }
    let colon = find_byte_from(line, 0, 58);
    let comma = find_byte_from(line, 0, 44);
    proof {
        match colon {
            Some(p) => lemma_find_pos_unique(line@, 58, p as int),
            None => lemma_find_pos_unique(line@, 58, n as int),
        }
        match comma {
            Some(p) => lemma_find_pos_unique(line@, 44, p as int),
            None => lemma_find_pos_unique(line@, 44, n as int),
        }
    }
    match (colon, comma) {
        (Option::None, Option::None) => {
            if n == 6 && line[0] == 114 && line[1] == 101 && line[2] == 99 && line[3] == 111
                && line[4] == 114 && line[5] == 100 {
                proof {
                    assert(line@ =~= record_bytes());
                }
                SheetLine::Record
            } else if n == 3 && line[0] == 101 && line[1] == 110 && line[2] == 100 {
                proof {
                    assert(line@ =~= end_bytes());
                }
                SheetLine::End
            } else {
                proof {
                    assert(line@ != record_bytes());
                    assert(line@ != end_bytes());
                }
                SheetLine::BadKeyword
            }
        },
        (Option::None, Option::Some(pm)) => SheetLine::NoteBar { first_comma: pm },
        (Option::Some(pc), Option::None) => SheetLine::Config {
            first_colon: pc,
            first_comma: None,
        },
        (Option::Some(pc), Option::Some(pm)) => SheetLine::Config {
            first_colon: pc,
            first_comma: Some(pm),
        },
    }
}

/// Splits a configuration entry at its first colon into a trimmed key
/// and a trimmed value; `None` when the entry has no colon, which the
/// sheet format treats as a syntax error.
pub open spec fn spec_cut_colon(s: Seq<u8>) -> Option<(Seq<u8>, Seq<u8>)> {
    let p = find_pos(s, 58);
    if p == s.len() {
        None
    } else {
        Some((spec_trim(s.subrange(0, p)), spec_trim(s.subrange(p + 1, s.len() as int))))
    }
}

/// Splits a configuration entry at its first colon into a trimmed key
/// and a trimmed value.
pub fn cut_with_colon(entry: &[u8]) -> (r: Option<(Vec<u8>, Vec<u8>)>)
    ensures
        match r {
            Some(kv) => spec_cut_colon(entry@) == Some((kv.0@, kv.1@)),
            None => spec_cut_colon(entry@) is None,
        },
{
    let n = entry.len();
    match find_byte_from(entry, 0, 58) {
        Option::None => {
            proof {
                lemma_find_pos_unique(entry@, 58, n as int);
            }
            None
        },
        Option::Some(p) => {
            proof {
                lemma_find_pos_unique(entry@, 58, p as int);
            }
            let key_raw = copy_range(entry, 0, p);
            let val_raw = copy_range(entry, p + 1, n);
            let key = trim_bytes(key_raw.as_slice());
            let val = trim_bytes(val_raw.as_slice());
            Some((key, val))
        },
    }
}

/// Whether two byte strings hold the same bytes.
pub fn slice_eq(a: &[u8], b: &[u8]) -> (r: bool)
    ensures
        r <==> a@ == b@,
{
    let n = a.len();
    if n != b.len() {
        return false;
    }
    let mut i: usize = 0;
    while i < n
        invariant
            0 <= i <= n,
            n == a@.len(),
            n == b@.len(),
            forall|j: int| 0 <= j < i ==> a@[j] == b@[j],
        decreases n - i,
    {
        if a[i] != b[i] {
            return false;
        }
        i = i + 1;
    }
    proof {
        assert(a@ =~= b@);
    }
    true
}

/// Ten to the `n`-th power.
pub open spec fn pow10(n: nat) -> int
    decreases n,
{
    if n == 0 {
        1
    } else {
        10 * pow10((n - 1) as nat)
    }
}

/// The value of a digit string is below ten to its length.
pub proof fn lemma_digits_val_bound(s: Seq<u8>)
    requires
        all_digits(s),
    ensures
        0 <= digits_val(s) < pow10(s.len()),
    decreases s.len(),
{
    if s.len() > 0 {
        assert(all_digits(s.drop_last())) by {
            assert forall|i: int| 0 <= i < s.drop_last().len() implies crate::harmonics::is_digit(
                #[trigger] s.drop_last()[i],
            ) by {
                assert(s.drop_last()[i] == s[i]);
            }
        }
        lemma_digits_val_bound(s.drop_last());
        assert(crate::harmonics::is_digit(s[s.len() - 1]));
        assert(digits_val(s.drop_last()) * 10 + 9 < pow10(s.len())) by (nonlinear_arith)
            requires
                0 <= digits_val(s.drop_last()) < pow10((s.len() - 1) as nat),
                pow10(s.len() as nat) == 10 * pow10((s.len() - 1) as nat),
        ;
    }
}

/// The small powers of ten, spelled out.
pub proof fn lemma_pow10_small()
    ensures
        pow10(0) == 1,
        pow10(1) == 10,
        pow10(2) == 100,
        pow10(3) == 1000,
        pow10(4) == 10000,
        pow10(5) == 100000,
        pow10(6) == 1000000,
{
    reveal_with_fuel(pow10, 8);
}

/// A tempo value: a signed decimal number with at most six digits after
/// the point.
pub open spec fn is_decimal_token(s: Seq<u8>) -> bool {
    let p = find_pos(s, 46);
    if p == s.len() {
        is_int_token(s)
    } else {
        &&& is_int_token(s.subrange(0, p))
        &&& 1 <= s.len() - p - 1 <= 6
        &&& all_digits(s.subrange(p + 1, s.len() as int))
    }
}

/// The fixed-point value a decimal token denotes.
pub open spec fn decimal_fp_val(s: Seq<u8>) -> int {
    let p = find_pos(s, 46);
    let ip = if p == s.len() {
        s
    } else {
        s.subrange(0, p)
    };
    let neg = ip.len() >= 1 && ip[0] == 45;
    let digits = if neg {
        ip.subrange(1, ip.len() as int)
    } else {
        ip
    };
    let whole = digits_val(digits) * (FP_ONE as int);
    let frac = if p == s.len() {
        0int
    } else {
        digits_val(s.subrange(p + 1, s.len() as int)) * pow10((6 - (s.len() - p - 1)) as nat)
    };
    if neg {
        -(whole + frac)
    } else {
        whole + frac
    }
}

/// Ten to a power of at most six, as a run-time value.
fn pow10_small(n: usize) -> (r: u64)
    requires
        n <= 6,
    ensures
        r == pow10(n as nat),
{
    proof {
        lemma_pow10_small();
    }
    if n == 0 {
        1
    } else if n == 1 {
        10
    } else if n == 2 {
        100
    } else if n == 3 {
        1000
    } else if n == 4 {
        10000
    } else if n == 5 {
        100000
    } else {
        1000000
    }
}

/// Parses a decimal tempo token into fixed-point units; `None` when the
/// token is malformed or out of range.
pub fn parse_decimal_fp(s: &[u8]) -> (r: Option<i64>)
    ensures
        match r {
            Some(v) => is_decimal_token(s@) && -i64::MAX <= decimal_fp_val(s@) <= i64::MAX && v
                == decimal_fp_val(s@),
            None => !is_decimal_token(s@) || decimal_fp_val(s@) > i64::MAX || decimal_fp_val(s@)
                < -i64::MAX,
        },
{
    let n = s.len();
    let dot = find_byte_from(s, 0, 46);
    proof {
        match dot {
            Some(p) => lemma_find_pos_unique(s@, 46, p as int),
            None => lemma_find_pos_unique(s@, 46, n as int),
        }
    }
    let (ip_to, f_from): (usize, usize) = match dot {
        Option::Some(p) => (p, p + 1),
        Option::None => (n, n),
    };
    let neg = ip_to >= 1 && s[0] == 45;
    let d_from: usize = if neg {
        1
    } else {
        0
    };
    let whole_b = copy_range(s, d_from, ip_to);
    let whole = match parse_digits(whole_b.as_slice()) {
        Option::Some(w) => w,
        Option::None => {
            proof {
                let sq = s@;
                let p = find_pos(sq, 46);
                let ip = if p == sq.len() {
                    sq
                } else {
                    sq.subrange(0, p)
                };
                if is_decimal_token(sq) {
                    let digits = if neg {
                        ip.subrange(1, ip.len() as int)
                    } else {
                        ip
                    };
                    assert(whole_b@ =~= digits);
                    assert(digits_val(digits) > i64::MAX);
                    assert(digits_val(digits) * (FP_ONE as int) >= digits_val(digits))
                        by (nonlinear_arith)
                        requires
                            digits_val(digits) >= 0,
                            (FP_ONE as int) >= 1,
                    ;
                    if p != sq.len() {
                        let f = sq.subrange(p + 1, sq.len() as int);
                        lemma_digits_val_bound(f);
                        lemma_pow10_small();
                        assert(digits_val(f) * pow10((6 - f.len()) as nat) >= 0)
                            by (nonlinear_arith)
                            requires
                                digits_val(f) >= 0,
                                pow10((6 - f.len()) as nat) >= 1,
                        ;
                    }
                }
            }
            return None;
        },
    };
    proof {
        let sq = s@;
        let p = find_pos(sq, 46);
        let ip = if p == sq.len() {
            sq
        } else {
            sq.subrange(0, p)
        };
        let digits = if neg {
            ip.subrange(1, ip.len() as int)
        } else {
            ip
        };
        assert(whole_b@ =~= digits);
        if !neg && ip.len() >= 1 && ip[0] == 45 {
            assert(false);
        }
    }
    let frac: u64 = match dot {
        Option::Some(p) => {
            let flen = n - (p + 1);
            if flen < 1 || flen > 6 {
                return None;
            }
            let f_b = copy_range(s, p + 1, n);
            proof {
                lemma_pow10_small();
                assert(pow10(flen as nat) * pow10((6 - flen) as nat) == 1000000) by {
                    lemma_pow10_small();
                    if flen == 1 {
                    } else if flen == 2 {
                    } else if flen == 3 {
                    } else if flen == 4 {
                    } else if flen == 5 {
                    } else {
                        assert(flen == 6);
                    }
                }
            }
            match parse_digits(f_b.as_slice()) {
                Option::Some(fv) => {
                    proof {
                        lemma_digits_val_bound(f_b@);
                        assert(digits_val(f_b@) * pow10((6 - flen) as nat) < 1000000)
                            by (nonlinear_arith)
                            requires
                                0 <= digits_val(f_b@) < pow10(flen as nat),
                                pow10(flen as nat) * pow10((6 - flen) as nat) == 1000000,
                                pow10((6 - flen) as nat) >= 1,
                        ;
                    }
                    let scale = pow10_small(6 - flen);
                    (fv as u64) * scale
                },
                Option::None => {
                    proof {
                        if all_digits(f_b@) {
                            lemma_digits_val_bound(f_b@);
                            assert(pow10(flen as nat) <= 1000000) by (nonlinear_arith)
                                requires
                                    pow10(flen as nat) * pow10((6 - flen) as nat) == 1000000,
                                    pow10(flen as nat) >= 1,
                                    pow10((6 - flen) as nat) >= 1,
                            ;
                            assert(false);
                        }
                    }
                    return None;
                },
            }
        },
        Option::None => 0,
    };
    proof {
        assert(frac < 1000000 || dot is None);
    }
    let wide: i128 = (whole as i128) * (FP_ONE as i128) + (frac as i128);
    proof {
        assert(whole * FP_ONE <= (i64::MAX as int) * FP_ONE) by (nonlinear_arith)
            requires
                0 <= whole <= i64::MAX,
        ;
        assert(whole * FP_ONE >= 0) by (nonlinear_arith)
            requires
                whole >= 0,
        ;
    }
    if wide > (i64::MAX as i128) {
        return None;
    }
    if neg {
        Some(-(wide as i64))
    } else {
        Some(wide as i64)
    }
}

/// An error from a configuration update: the key is unknown, or its
/// value cannot be read.
#[derive(PartialEq, Eq, Debug)]
pub enum ParamError {
    /// No setting has this name.
    UnknownKey,
    /// The value does not parse or is out of range for the setting.
    BadValue,
}

/// The bytes of the setting name "name".
pub open spec fn name_key() -> Seq<u8> {
    seq![110u8, 97u8, 109u8, 101u8]
}

/// The bytes of the setting name "samplerate".
pub open spec fn samplerate_key() -> Seq<u8> {
    seq![115u8, 97u8, 109u8, 112u8, 108u8, 101u8, 114u8, 97u8, 116u8, 101u8]
}

/// The bytes of the setting name "bitspersample".
pub open spec fn bitspersample_key() -> Seq<u8> {
    seq![98u8, 105u8, 116u8, 115u8, 112u8, 101u8, 114u8, 115u8, 97u8, 109u8, 112u8, 108u8, 101u8]
}

/// The bytes of the setting name "beatsperminute".
pub open spec fn beatsperminute_key() -> Seq<u8> {
    seq![
        98u8,
        101u8,
        97u8,
        116u8,
        115u8,
        112u8,
        101u8,
        114u8,
        109u8,
        105u8,
        110u8,
        117u8,
        116u8,
        101u8,
    ]
}

/// The bytes of the setting name "bpm".
pub open spec fn bpm_key() -> Seq<u8> {
    seq![98u8, 112u8, 109u8]
}

/// The bytes of the setting name "time_signature".
pub open spec fn time_signature_key() -> Seq<u8> {
    seq![
        116u8,
        105u8,
        109u8,
        101u8,
        95u8,
        115u8,
        105u8,
        103u8,
        110u8,
        97u8,
        116u8,
        117u8,
        114u8,
        101u8,
    ]
}

/// The default output file name.
pub open spec fn default_name() -> Seq<u8> {
    seq![
        119u8,
        97u8,
        118u8,
        101u8,
        95u8,
        103u8,
        101u8,
        110u8,
        101u8,
        114u8,
        97u8,
        116u8,
        111u8,
        114u8,
        95u8,
        103u8,
        101u8,
        110u8,
        101u8,
        114u8,
        97u8,
        116u8,
        101u8,
        100u8,
        46u8,
        119u8,
        97u8,
        118u8,
    ]
}

/// The settings a note sheet can change before recording: output name
/// and format, tempo and meter.  The tempo is held in fixed-point
/// beats per minute.
pub struct GlobalParameters {
    /// Output file name, as bytes of the sheet's text.
    pub name: Vec<u8>,
    /// Output sample rate in hertz.
    pub sample_rate: u32,
    /// Output bit depth: 8, 16 or 32.
    pub bits_per_sample: u16,
    /// Tempo in fixed-point quarter notes per minute.
    pub beats_per_minute: i64,
    /// The meter, as a fraction.
    pub time_signature: (i64, i64),
}

/// Whether a settings value is unchanged between two states except for
/// the named field.
pub open spec fn same_but_name(a: GlobalParameters, b: GlobalParameters) -> bool {
    &&& a.sample_rate == b.sample_rate
    &&& a.bits_per_sample == b.bits_per_sample
    &&& a.beats_per_minute == b.beats_per_minute
    &&& a.time_signature == b.time_signature
}

/// Whether two settings values keep the same name bytes.
pub open spec fn same_name(a: GlobalParameters, b: GlobalParameters) -> bool {
    a.name@ == b.name@
}

impl GlobalParameters {
    /// The defaults: CD-rate 16-bit output at 120 beats per minute in
    /// common time.
    pub fn new_default() -> (r: GlobalParameters)
        ensures
            r.name@ == default_name(),
            r.sample_rate == 44100,
            r.bits_per_sample == 16,
            r.beats_per_minute == 120 * FP_ONE,
            r.time_signature == (4i64, 4i64),
    {
        let name: Vec<u8> = vec![
            119, 97, 118, 101, 95, 103, 101, 110, 101, 114, 97, 116, 111, 114, 95, 103, 101, 110,
            101, 114, 97, 116, 101, 100, 46, 119, 97, 118,
        ];
        proof {
            assert(name@ =~= default_name());
        }
        GlobalParameters {
            name,
            sample_rate: 44100,
            bits_per_sample: 16,
            beats_per_minute: 120 * FP_ONE,
            time_signature: (4, 4),
        }
    }

    /// Applies one `key: value` setting from a sheet's configuration
    /// line.  Unknown keys and malformed or out-of-range values leave
    /// the settings untouched and report the error.
    pub fn update(&mut self, key: &[u8], value: &[u8]) -> (r: Result<(), ParamError>)
        ensures
            key@ == name_key() ==> r is Ok && final(self).name@ == value@ && same_but_name(
                *final(self),
                *old(self),
            ),
            key@ == samplerate_key() ==> (if is_int_token(value@) && 0 <= int_token_val(value@)
                <= u32::MAX {
                &&& r is Ok
                &&& final(self).sample_rate == int_token_val(value@)
                &&& same_name(*final(self), *old(self))
                &&& final(self).bits_per_sample == old(self).bits_per_sample
                &&& final(self).beats_per_minute == old(self).beats_per_minute
                &&& final(self).time_signature == old(self).time_signature
            } else {
                r == Result::<(), ParamError>::Err(ParamError::BadValue) && *final(self) == *old(
                    self,
                )
            }),
            key@ == bitspersample_key() ==> (if is_int_token(value@) && 0 <= int_token_val(value@)
                <= u16::MAX {
                &&& r is Ok
                &&& final(self).bits_per_sample == int_token_val(value@)
                &&& same_name(*final(self), *old(self))
                &&& final(self).sample_rate == old(self).sample_rate
                &&& final(self).beats_per_minute == old(self).beats_per_minute
                &&& final(self).time_signature == old(self).time_signature
            } else {
                r == Result::<(), ParamError>::Err(ParamError::BadValue) && *final(self) == *old(
                    self,
                )
            }),
            key@ == beatsperminute_key() || key@ == bpm_key() ==> (if is_decimal_token(value@)
                && -i64::MAX <= decimal_fp_val(value@) <= i64::MAX {
                &&& r is Ok
                &&& final(self).beats_per_minute == decimal_fp_val(value@)
                &&& same_name(*final(self), *old(self))
                &&& final(self).sample_rate == old(self).sample_rate
                &&& final(self).bits_per_sample == old(self).bits_per_sample
                &&& final(self).time_signature == old(self).time_signature
            } else {
                r == Result::<(), ParamError>::Err(ParamError::BadValue) && *final(self) == *old(
                    self,
                )
            }),
            key@ == time_signature_key() ==> (if find_pos(value@, 47) < value@.len()
                && is_fraction_token(value@) {
                &&& r is Ok
                &&& final(self).time_signature == (
                    fraction_val(value@).0 as i64,
                    fraction_val(value@).1 as i64,
                )
                &&& same_name(*final(self), *old(self))
                &&& final(self).sample_rate == old(self).sample_rate
                &&& final(self).bits_per_sample == old(self).bits_per_sample
                &&& final(self).beats_per_minute == old(self).beats_per_minute
            } else {
                r == Result::<(), ParamError>::Err(ParamError::BadValue) && *final(self) == *old(
                    self,
                )
            }),
            key@ != name_key() && key@ != samplerate_key() && key@ != bitspersample_key() && key@
                != beatsperminute_key() && key@ != bpm_key() && key@ != time_signature_key() ==> r
                == Result::<(), ParamError>::Err(ParamError::UnknownKey) && *final(self) == *old(
                self,
            ),
    {
        let k_name: Vec<u8> = vec![110, 97, 109, 101];
        let k_rate: Vec<u8> = vec![115, 97, 109, 112, 108, 101, 114, 97, 116, 101];
        let k_bits: Vec<u8> = vec![98, 105, 116, 115, 112, 101, 114, 115, 97, 109, 112, 108, 101];
        let k_beats: Vec<u8> = vec![
            98, 101, 97, 116, 115, 112, 101, 114, 109, 105, 110, 117, 116, 101,
        ];
        let k_bpm: Vec<u8> = vec![98, 112, 109];
        let k_sig: Vec<u8> = vec![
            116, 105, 109, 101, 95, 115, 105, 103, 110, 97, 116, 117, 114, 101,
        ];
        proof {
            assert(k_name@ =~= name_key());
            assert(k_rate@ =~= samplerate_key());
            assert(k_bits@ =~= bitspersample_key());
            assert(k_beats@ =~= beatsperminute_key());
            assert(k_bpm@ =~= bpm_key());
            assert(k_sig@ =~= time_signature_key());
            assert(name_key().len() == 4 && samplerate_key().len() == 10 && bitspersample_key().len()
                == 13 && beatsperminute_key().len() == 14 && bpm_key().len() == 3
                && time_signature_key().len() == 14);
            assert(beatsperminute_key()[0] == 98 && time_signature_key()[0] == 116);
        }
        if slice_eq(key, k_name.as_slice()) {
            self.name = copy_range(value, 0, value.len());
            proof {
                assert(self.name@ =~= value@);
            }
            Ok(())
        } else if slice_eq(key, k_rate.as_slice()) {
            match parse_i64(value) {
                Option::Some(v) => {
                    if 0 <= v && v <= 0xffff_ffffi64 {
                        self.sample_rate = v as u32;
                        Ok(())
                    } else {
                        Err(ParamError::BadValue)
                    }
                },
                Option::None => Err(ParamError::BadValue),
            }
        } else if slice_eq(key, k_bits.as_slice()) {
            match parse_i64(value) {
                Option::Some(v) => {
                    if 0 <= v && v <= 0xffffi64 {
                        self.bits_per_sample = v as u16;
                        Ok(())
                    } else {
                        Err(ParamError::BadValue)
                    }
                },
                Option::None => Err(ParamError::BadValue),
            }
        } else if slice_eq(key, k_beats.as_slice()) || slice_eq(key, k_bpm.as_slice()) {
            match parse_decimal_fp(value) {
                Option::Some(v) => {
                    self.beats_per_minute = v;
                    Ok(())
                },
                Option::None => Err(ParamError::BadValue),
            }
        } else if slice_eq(key, k_sig.as_slice()) {
            let has_slash = find_byte_from(value, 0, 47);
            proof {
                match has_slash {
                    Some(p) => lemma_find_pos_unique(value@, 47, p as int),
                    None => lemma_find_pos_unique(value@, 47, value@.len() as int),
                }
            }
            match has_slash {
                Option::Some(_) => match parse_fraction(value) {
                    Option::Some(ts) => {
                        self.time_signature = ts;
                        Ok(())
                    },
                    Option::None => Err(ParamError::BadValue),
                },
                Option::None => Err(ParamError::BadValue),
            }
        } else {
            Err(ParamError::UnknownKey)
        }
    }
}

} // verus!
