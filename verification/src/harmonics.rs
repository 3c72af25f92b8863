//! Turning the note names a person writes ("c3 flat 1/4 1/4") into
//! structured notes: tone, octave, accidental, and the two fractions
//! giving the note's offset within its bar and its duration.
//!
//! Parsing is total: a line that does not follow the format yields the
//! default note (A4, a quarter note at the bar's start) rather than an
//! error.

use vstd::prelude::*;
use vstd::string::StringSliceAdditionalSpecFns;
use crate::math::FP_ONE;

verus! {

/// The shapes of notes an instrument can consume.
pub enum NoteType {
    /// A pitched note with tone, octave and accidental.
    MelodicNote,
}

/// The seven tone letters.
#[derive(PartialEq, Eq, Debug)]
pub enum ToneName {
    C,
    D,
    E,
    F,
    G,
    A,
    B,
}

/// An accidental: flat, natural, sharp, or an arbitrary signed count of
/// semitones.
#[derive(PartialEq, Eq, Debug)]
pub enum ToneVariant {
    /// One semitone down.
    Flat,
    /// No change.
    Natural,
    /// One semitone up.
    Sharp,
    /// A signed number of semitones; negative values flatten.
    Numeric(i64),
}

/// Index of the first occurrence of `b` in `s`, or `s.len()` when `b`
/// does not occur.
pub open spec fn find_pos(s: Seq<u8>, b: u8) -> int
    decreases s.len(),
{
    if s.len() == 0 {
        0
    } else if s[0] == b {
        0
    } else {
        1 + find_pos(s.subrange(1, s.len() as int), b)
    }
}

/// `find_pos` points at the first occurrence: everything before it
/// differs from `b`, and it lands on `b` unless `b` is absent.
pub proof fn lemma_find_pos_properties(s: Seq<u8>, b: u8)
    ensures
        0 <= find_pos(s, b) <= s.len(),
        find_pos(s, b) < s.len() ==> s[find_pos(s, b)] == b,
        forall|j: int| 0 <= j < find_pos(s, b) ==> s[j] != b,
    decreases s.len(),
{
    if s.len() > 0 && s[0] != b {
        let rest = s.subrange(1, s.len() as int);
        lemma_find_pos_properties(rest, b);
        assert forall|j: int| 0 <= j < find_pos(s, b) implies s[j] != b by {
            if j > 0 {
                assert(rest[j - 1] == s[j]);
            }
        }
    }
}

/// Any position that lands on `b` with nothing equal to `b` before it
/// is `find_pos`; so is `s.len()` when `b` is absent altogether.
pub proof fn lemma_find_pos_unique(s: Seq<u8>, b: u8, p: int)
    requires
        0 <= p <= s.len(),
        p < s.len() ==> s[p] == b,
        forall|j: int| 0 <= j < p ==> s[j] != b,
        p == s.len() ==> forall|j: int| 0 <= j < s.len() ==> s[j] != b,
    ensures
        find_pos(s, b) == p,
{
    lemma_find_pos_properties(s, b);
    let f = find_pos(s, b);
    if f < p {
        assert(s[f] == b);
    } else if p < f {
        assert(s[p] == b);
    }
}

/// First index at or after `from` holding `b`.
pub fn find_byte_from(s: &[u8], from: usize, b: u8) -> (r: Option<usize>)
    requires
        from <= s@.len(),
    ensures
        match r {
            Some(i) => from <= i < s@.len() && s@[i as int] == b && forall|j: int|
                from <= j < i ==> s@[j] != b,
            None => forall|j: int| from <= j < s@.len() ==> s@[j] != b,
        },
{
    let mut i: usize = from;
    let n = s.len();
    while i < n
        invariant
            from <= i <= n,
            n == s@.len(),
            forall|j: int| from <= j < i ==> s@[j] != b,
        decreases n - i,
    {
        if s[i] == b {
            return Some(i);
        }
        i = i + 1;
    }
    None
}

/// The bytes of `s` from `from` (inclusive) to `to` (exclusive), copied.
pub fn copy_range(s: &[u8], from: usize, to: usize) -> (r: Vec<u8>)
    requires
        from <= to <= s@.len(),
    ensures
        r@ == s@.subrange(from as int, to as int),
{
    let mut out: Vec<u8> = Vec::new();
    let mut i: usize = from;
    while i < to
        invariant
            from <= i <= to,
            to <= s@.len(),
            out@.len() == i - from,
            forall|j: int| 0 <= j < i - from ==> out@[j] == s@[from + j],
        decreases to - i,
    {
        out.push(s[i]);
        i = i + 1;
    }
    proof {
        assert(out@ =~= s@.subrange(from as int, to as int));
    }
    out
}

/// The pieces of `s` between occurrences of the separator `b`, in
/// order; `n + 1` pieces for `n` separators, empty pieces kept.
pub open spec fn spec_split(s: Seq<u8>, b: u8) -> Seq<Seq<u8>>
    decreases s.len(),
    via spec_split_decreases
{
    let p = find_pos(s, b);
    if p == s.len() {
        seq![s]
    } else {
        seq![s.subrange(0, p)] + spec_split(s.subrange(p + 1, s.len() as int), b)
    }
}

#[via_fn]
proof fn spec_split_decreases(s: Seq<u8>, b: u8) {
    lemma_find_pos_properties(s, b);
}

/// Splits the tail of `s` starting at `from` on the separator `b`,
/// appending the pieces to `out`.
fn split_from(s: &[u8], from: usize, b: u8, out: &mut Vec<Vec<u8>>)
    requires
        from <= s@.len(),
    ensures
        final(out)@.len() == old(out)@.len() + spec_split(
            s@.subrange(from as int, s@.len() as int),
            b,
        ).len(),
        forall|k: int|
            0 <= k < old(out)@.len() ==> #[trigger] final(out)@[k]@ == old(out)@[k]@,
        forall|k: int|
            0 <= k < spec_split(s@.subrange(from as int, s@.len() as int), b).len()
                ==> #[trigger] final(out)@[old(out)@.len() + k]@ == spec_split(
                s@.subrange(from as int, s@.len() as int),
                b,
            )[k],
    decreases s@.len() - from,
{
    let ghost rem = s@.subrange(from as int, s@.len() as int);
    let ghost base = out@.len() as int;
    let n = s.len();
    match find_byte_from(s, from, b) {
        Option::None => {
            proof {
                assert forall|j: int| 0 <= j < rem.len() implies rem[j] != b by {
                    assert(rem[j] == s@[from + j]);
                }
                lemma_find_pos_unique(rem, b, rem.len() as int);
            }
            let piece = copy_range(s, from, n);
            assert(piece@ =~= rem);
            out.push(piece);
            proof {
                assert(spec_split(rem, b) =~= seq![rem]);
                assert(out@[base]@ == spec_split(rem, b)[0]);
            }
        },
        Option::Some(p) => {
            proof {
                assert forall|j: int| 0 <= j < p - from implies rem[j] != b by {
                    assert(rem[j] == s@[from + j]);
                }
                assert(rem[p - from] == s@[p as int]);
                lemma_find_pos_unique(rem, b, p - from);
            }
            let piece = copy_range(s, from, p);
            assert(piece@ =~= rem.subrange(0, p - from));
            out.push(piece);
            let ghost mid = out@;
            split_from(s, p + 1, b, out);
            proof {
                let rest = s@.subrange(p + 1, s@.len() as int);
                assert(rest =~= rem.subrange(p + 1 - from, rem.len() as int));
                assert(spec_split(rem, b) == seq![rem.subrange(0, p - from)] + spec_split(
                    rest,
                    b,
                ));
                assert forall|k: int| 0 <= k < spec_split(rem, b).len() implies #[trigger] out@[
                    base + k
                ]@ == spec_split(rem, b)[k] by {
                    if k == 0 {
                        assert(out@[base]@ == mid[base]@);
                        assert(mid[base]@ == rem.subrange(0, p - from));
                    } else {
                        assert(out@[base + 1 + (k - 1)]@ == spec_split(rest, b)[k - 1]);
                        assert(spec_split(rem, b)[k] == spec_split(rest, b)[k - 1]);
                    }
                }
            }
        },
    }
}

/// Splits `s` on the separator `b`; empty pieces are kept.
pub fn split_bytes(s: &[u8], b: u8) -> (r: Vec<Vec<u8>>)
    ensures
        r@.len() == spec_split(s@, b).len(),
        forall|k: int|
            0 <= k < r@.len() ==> #[trigger] r@[k]@ == spec_split(s@, b)[k],
{
    let mut out: Vec<Vec<u8>> = Vec::new();
    split_from(s, 0, b, &mut out);
    proof {
        assert(s@.subrange(0, s@.len() as int) =~= s@);
        assert forall|k: int| 0 <= k < out@.len() implies #[trigger] out@[k]@ == spec_split(
            s@,
            b,
        )[k] by {
            assert(out@[0 + k]@ == spec_split(s@.subrange(0, s@.len() as int), b)[k]);
        }
    }
    out
}

/// ASCII lowercase of one byte.
pub open spec fn lower_byte(b: u8) -> u8 {
    if 65 <= b <= 90 {
        (b + 32) as u8
    } else {
        b
    }
}

/// ASCII lowercase of a byte string.
pub open spec fn lower_bytes(s: Seq<u8>) -> Seq<u8> {
    s.map_values(|b: u8| lower_byte(b))
}

/// Lowercases a byte string.
pub fn to_lower(s: &[u8]) -> (r: Vec<u8>)
    ensures
        r@ == lower_bytes(s@),
{
    let mut out: Vec<u8> = Vec::new();
    let mut i: usize = 0;
    let n = s.len();
    while i < n
        invariant
            0 <= i <= n,
            n == s@.len(),
            out@.len() == i,
            forall|j: int| 0 <= j < i ==> out@[j] == lower_byte(s@[j]),
        decreases n - i,
    {
        let c = s[i];
        if 65 <= c && c <= 90 {
            out.push(c + 32);
        } else {
            out.push(c);
        }
        i = i + 1;
    }
    proof {
        assert(out@ =~= lower_bytes(s@));
    }
    out
}

/// Whether a byte is an ASCII decimal digit.
pub open spec fn is_digit(b: u8) -> bool {
    48 <= b <= 57
}

/// Every byte is a digit.
pub open spec fn all_digits(s: Seq<u8>) -> bool {
    forall|i: int| 0 <= i < s.len() ==> is_digit(#[trigger] s[i])
}

/// The number a digit string denotes.
pub open spec fn digits_val(s: Seq<u8>) -> int
    decreases s.len(),
{
    if s.len() == 0 {
        0
    } else {
        digits_val(s.drop_last()) * 10 + (s.last() - 48)
    }
}

/// A signed decimal integer: an optional minus sign followed by at
/// least one digit.
pub open spec fn is_int_token(s: Seq<u8>) -> bool {
    if s.len() >= 1 && s[0] == 45 {
        s.len() >= 2 && all_digits(s.subrange(1, s.len() as int))
    } else {
        s.len() >= 1 && all_digits(s)
    }
}

/// The value a signed decimal integer token denotes.
pub open spec fn int_token_val(s: Seq<u8>) -> int {
    if s.len() >= 1 && s[0] == 45 {
        -digits_val(s.subrange(1, s.len() as int))
    } else {
        digits_val(s)
    }
}

/// The value of a digit string is non-negative and never shrinks as
/// digits are appended.
pub proof fn lemma_digits_val_grows(s: Seq<u8>)
    requires
        all_digits(s),
        s.len() >= 1,
    ensures
        digits_val(s) >= 0,
        digits_val(s) >= digits_val(s.drop_last()),
        digits_val(s.drop_last()) >= 0,
    decreases s.len(),
{
    assert(is_digit(s[s.len() - 1]));
    if s.len() == 1 {
        assert(s.drop_last().len() == 0);
        assert(digits_val(s.drop_last()) == 0);
    }
    if s.len() > 1 {
        assert(all_digits(s.drop_last())) by {
            assert forall|i: int| 0 <= i < s.drop_last().len() implies is_digit(
                #[trigger] s.drop_last()[i],
            ) by {
                assert(s.drop_last()[i] == s[i]);
            }
        }
        lemma_digits_val_grows(s.drop_last());
        assert(digits_val(s.drop_last()) * 10 >= digits_val(s.drop_last())) by (nonlinear_arith)
            requires
                digits_val(s.drop_last()) >= 0,
        ;
    }
}

/// Parses an unsigned digit string; `None` when a byte is not a digit
/// or the value exceeds `i64::MAX`.
pub fn parse_digits(s: &[u8]) -> (r: Option<i64>)
    ensures
        match r {
            Some(v) => s@.len() >= 1 && all_digits(s@) && v == digits_val(s@) && 0 <= v,
            None => s@.len() == 0 || !all_digits(s@) || digits_val(s@) > i64::MAX,
        },
{
    let n = s.len();
    if n == 0 {
        return None;
    }
    let mut acc: u128 = 0;
    let mut i: usize = 0;
    while i < n
        invariant
            0 <= i <= n,
            n == s@.len(),
            all_digits(s@.take(i as int)),
            acc == digits_val(s@.take(i as int)),
            acc <= i64::MAX,
        decreases n - i,
    {
        let c = s[i];
        if c < 48 || c > 57 {
            assert(!all_digits(s@));
            return None;
        }
        proof {
            assert(s@.take(i + 1).drop_last() =~= s@.take(i as int));
            assert(s@.take(i + 1).last() == s@[i as int]);
            assert(all_digits(s@.take(i + 1))) by {
                assert forall|j: int| 0 <= j < i + 1 implies is_digit(
                    #[trigger] s@.take(i + 1)[j],
                ) by {
                    if j < i {
                        assert(s@.take(i + 1)[j] == s@.take(i as int)[j]);
                    }
                }
            }
        }
        let next: u128 = acc * 10 + ((c - 48) as u128);
        if next > (i64::MAX as u128) {
            proof {
                if all_digits(s@) {
                    assert(all_digits(s@.take(n as int))) by {
                        assert forall|j: int| 0 <= j < n implies is_digit(
                            #[trigger] s@.take(n as int)[j],
                        ) by {
                            assert(s@.take(n as int)[j] == s@[j]);
                        }
                    }
                    lemma_digits_by_take(s@, i + 1, n as int);
                    assert(s@.take(n as int) =~= s@);
                }
            }
            return None;
        }
        acc = next;
        i = i + 1;
    }
    proof {
        assert(s@.take(n as int) =~= s@);
    }
    Some(acc as i64)
}

/// Appending digits never shrinks the value: the value of the whole
/// string is at least the value of any digit prefix.
pub proof fn lemma_digits_by_take(s: Seq<u8>, i: int, j: int)
    requires
        0 <= i <= j <= s.len(),
        all_digits(s.take(i)),
        all_digits(s.take(j)),
    ensures
        digits_val(s.take(j)) >= digits_val(s.take(i)),
    decreases j - i,
{
    if i < j {
        lemma_digits_by_take(s, i, j - 1);
        assert(all_digits(s.take(j - 1))) by {
            assert forall|k: int| 0 <= k < j - 1 implies is_digit(#[trigger] s.take(j - 1)[k]) by {
                assert(s.take(j - 1)[k] == s.take(j)[k]);
            }
        }
        assert(s.take(j).drop_last() =~= s.take(j - 1));
        if j - 1 >= 1 {
            lemma_digits_val_grows(s.take(j - 1));
        }
        assert(digits_val(s.take(j)) == digits_val(s.take(j - 1)) * 10 + (s.take(j).last() - 48));
        assert(digits_val(s.take(j - 1)) * 10 >= digits_val(s.take(j - 1))) by (nonlinear_arith)
            requires
                digits_val(s.take(j - 1)) >= 0,
        ;
    }
}

/// Aborts unless a parameter list has exactly the expected number of
/// entries.
pub fn par_check(length: usize, expected: usize)
    requires
        length == expected,
{
}

/// Parses a signed decimal integer from a string, for callers that have
/// already checked the token's shape.
pub fn parse_unwrap(s: &str) -> (r: i64)
    requires
        is_int_token(s.spec_bytes()),
        -i64::MAX <= int_token_val(s.spec_bytes()) <= i64::MAX,
    ensures
        r == int_token_val(s.spec_bytes()),
{
    match parse_i64(s.as_bytes()) {
        Option::Some(v) => v,
        Option::None => vstd::pervasive::unreached(),
    }
}

/// Parses a signed decimal integer; `None` when the token is malformed
/// or its magnitude exceeds `i64::MAX`.
pub fn parse_i64(s: &[u8]) -> (r: Option<i64>)
    ensures
        match r {
            Some(v) => is_int_token(s@) && -i64::MAX <= int_token_val(s@) <= i64::MAX && v
                == int_token_val(s@),
            None => !is_int_token(s@) || int_token_val(s@) > i64::MAX || int_token_val(s@)
                < -i64::MAX,
        },
{
    let n = s.len();
    if n >= 1 && s[0] == 45 {
        let rest = copy_range(s, 1, n);
        match parse_digits(rest.as_slice()) {
            Option::Some(v) => {
                assert(rest@ == s@.subrange(1, n as int));
                Some(-v)
            },
            Option::None => {
                assert(rest@ == s@.subrange(1, n as int));
                None
            },
        }
    } else {
        match parse_digits(s) {
            Option::Some(v) => Some(v),
            Option::None => None,
        }
    }
}

/// A fraction token: an integer, or numerator and denominator separated
/// by a slash, every part within `i64`.
pub open spec fn is_fraction_token(s: Seq<u8>) -> bool {
    let p = find_pos(s, 47);
    if p == s.len() {
        is_int_token(s) && -i64::MAX <= int_token_val(s) <= i64::MAX
    } else {
        &&& is_int_token(s.subrange(0, p))
        &&& -i64::MAX <= int_token_val(s.subrange(0, p)) <= i64::MAX
        &&& is_int_token(s.subrange(p + 1, s.len() as int))
        &&& -i64::MAX <= int_token_val(s.subrange(p + 1, s.len() as int)) <= i64::MAX
    }
}

/// The pair a fraction token denotes; a plain integer has denominator
/// one.
pub open spec fn fraction_val(s: Seq<u8>) -> (int, int) {
    let p = find_pos(s, 47);
    if p == s.len() {
        (int_token_val(s), 1)
    } else {
        (int_token_val(s.subrange(0, p)), int_token_val(s.subrange(p + 1, s.len() as int)))
    }
}

/// Parses a fraction token; `None` when it is malformed.
pub fn parse_fraction(s: &[u8]) -> (r: Option<(i64, i64)>)
    ensures
        match r {
            Some(v) => is_fraction_token(s@) && v.0 == fraction_val(s@).0 && v.1 == fraction_val(
                s@,
            ).1,
            None => !is_fraction_token(s@),
        },
{
    let n = s.len();
    match find_byte_from(s, 0, 47) {
        Option::None => {
            proof {
                lemma_find_pos_unique(s@, 47, n as int);
            }
            match parse_i64(s) {
                Option::Some(v) => Some((v, 1)),
                Option::None => None,
            }
        },
        Option::Some(p) => {
            proof {
                lemma_find_pos_unique(s@, 47, p as int);
            }
            let num_b = copy_range(s, 0, p);
            let den_b = copy_range(s, p + 1, n);
            let num = parse_i64(num_b.as_slice());
            let den = parse_i64(den_b.as_slice());
            match (num, den) {
                (Option::Some(x), Option::Some(y)) => Some((x, y)),
                _ => None,
            }
        },
    }
}

/// The tone a (lowercased) letter names.
pub open spec fn tone_of(b: u8) -> Option<ToneName> {
    if b == 97 {
        Some(ToneName::A)
    } else if b == 98 {
        Some(ToneName::B)
    } else if b == 99 {
        Some(ToneName::C)
    } else if b == 100 {
        Some(ToneName::D)
    } else if b == 101 {
        Some(ToneName::E)
    } else if b == 102 {
        Some(ToneName::F)
    } else if b == 103 {
        Some(ToneName::G)
    } else {
        None
    }
}

/// Maps a lowercased letter to its tone.
pub fn tone_from_byte(b: u8) -> (r: Option<ToneName>)
    ensures
        r == tone_of(b),
{
    if b == 97 {
        Some(ToneName::A)
    } else if b == 98 {
        Some(ToneName::B)
    } else if b == 99 {
        Some(ToneName::C)
    } else if b == 100 {
        Some(ToneName::D)
    } else if b == 101 {
        Some(ToneName::E)
    } else if b == 102 {
        Some(ToneName::F)
    } else if b == 103 {
        Some(ToneName::G)
    } else {
        None
    }
}

/// The bytes of the word "flat".
pub open spec fn flat_bytes() -> Seq<u8> {
    seq![102u8, 108u8, 97u8, 116u8]
}

/// The bytes of the word "sharp".
pub open spec fn sharp_bytes() -> Seq<u8> {
    seq![115u8, 104u8, 97u8, 114u8, 112u8]
}

/// The accidental a token denotes: the words "flat" and "sharp", a
/// signed semitone count, or nothing.
pub open spec fn variant_of(s: Seq<u8>) -> ToneVariant {
    if s == flat_bytes() {
        ToneVariant::Flat
    } else if s == sharp_bytes() {
        ToneVariant::Sharp
    } else if is_int_token(s) && -i64::MAX <= int_token_val(s) <= i64::MAX {
        ToneVariant::Numeric(int_token_val(s) as i64)
    } else {
        ToneVariant::Natural
    }
}

/// Parses an accidental token.
pub fn parse_variant(s: &[u8]) -> (r: ToneVariant)
    ensures
        r == variant_of(s@),
{
    if s.len() == 4 && s[0] == 102 && s[1] == 108 && s[2] == 97 && s[3] == 116 {
        proof {
            assert(s@ =~= flat_bytes());
        }
        ToneVariant::Flat
    } else if s.len() == 5 && s[0] == 115 && s[1] == 104 && s[2] == 97 && s[3] == 114 && s[4]
        == 112 {
        proof {
            assert(s@ =~= sharp_bytes());
        }
        ToneVariant::Sharp
    } else {
        proof {
            assert(s@ != flat_bytes());
            assert(s@ != sharp_bytes());
        }
        match parse_i64(s) {
            Option::Some(v) => ToneVariant::Numeric(v),
            Option::None => ToneVariant::Natural,
        }
    }
}

/// A parsed pitched note: tone letter, octave, accidental, offset
/// within the bar and duration, the last two as fractions of a whole
/// note.
#[derive(PartialEq, Debug)]
pub struct MelodicNote {
    /// Octave number; A440 sits in octave four.
    pub octave: i64,
    /// The tone letter.
    pub tone: ToneName,
    /// The accidental.
    pub variant: ToneVariant,
    /// Offset within the bar, as a fraction of a whole note.
    pub delta: (i64, i64),
    /// Duration, as a fraction of a whole note.
    pub length: (i64, i64),
}

/// The note an unparseable line falls back to: A4, a quarter note at
/// the bar's start.
pub open spec fn default_note() -> MelodicNote {
    MelodicNote {
        octave: 4,
        tone: ToneName::A,
        variant: ToneVariant::Natural,
        delta: (0i64, 1i64),
        length: (1i64, 4i64),
    }
}

/// What parsing a note line means: lowercase the bytes, split on
/// spaces, take the last two tokens as duration and offset fractions,
/// the first as tone letter plus octave, and an optional second token
/// as the accidental; any malformed part yields the default note.
pub open spec fn spec_parse_melodic(s: Seq<u8>) -> MelodicNote {
    let toks = spec_split(lower_bytes(s), 32);
    if 3 <= toks.len() <= 4 {
        let length_t = toks[toks.len() - 1];
        let delta_t = toks[toks.len() - 2];
        let head = toks[0];
        let oct = head.subrange(1, head.len() as int);
        if is_fraction_token(length_t) && is_fraction_token(delta_t) && head.len() >= 2
            && tone_of(head[0]).is_some() && is_int_token(oct) && -i64::MAX <= int_token_val(oct)
            <= i64::MAX {
            MelodicNote {
                octave: int_token_val(oct) as i64,
                tone: tone_of(head[0])->Some_0,
                variant: if toks.len() == 4 {
                    variant_of(toks[1])
                } else {
                    ToneVariant::Natural
                },
                delta: (fraction_val(delta_t).0 as i64, fraction_val(delta_t).1 as i64),
                length: (fraction_val(length_t).0 as i64, fraction_val(length_t).1 as i64),
            }
        } else {
            default_note()
        }
    } else {
        default_note()
    }
}

/// The default note as a value.
fn make_default_note() -> (r: MelodicNote)
    ensures
        r == default_note(),
{
    MelodicNote {
        octave: 4,
        tone: ToneName::A,
        variant: ToneVariant::Natural,
        delta: (0, 1),
        length: (1, 4),
    }
}

impl MelodicNote {
    /// Parses a note line; lines that do not follow the format yield
    /// the default note.
    pub fn parse(s: &str) -> (r: MelodicNote)
        ensures
            r == spec_parse_melodic(s.spec_bytes()),
    {
        let bytes: &[u8] = s.as_bytes();
        let lowered = to_lower(bytes);
        let toks = split_bytes(lowered.as_slice(), 32);
        let ntoks = toks.len();
        let ghost stoks = spec_split(lower_bytes(s.spec_bytes()), 32);
        proof {
            assert(lowered@ == lower_bytes(s.spec_bytes()));
        }
        if ntoks < 3 || ntoks > 4 {
            return make_default_note();
        }
        let length_t: &Vec<u8> = &toks[ntoks - 1];
        let delta_t: &Vec<u8> = &toks[ntoks - 2];
        let head: &Vec<u8> = &toks[0];
        proof {
            assert(length_t@ == stoks[stoks.len() - 1]);
            assert(delta_t@ == stoks[stoks.len() - 2]);
            assert(head@ == stoks[0]);
        }
        if head.len() < 2 {
            return make_default_note();
        }
        let lf = parse_fraction(length_t.as_slice());
        let df = parse_fraction(delta_t.as_slice());
        let tone = tone_from_byte(head[0]);
        let oct_b = copy_range(head.as_slice(), 1, head.len());
        let oct = parse_i64(oct_b.as_slice());
        proof {
            assert(oct_b@ == head@.subrange(1, head@.len() as int));
        }
        match (lf, df, tone, oct) {
            (Option::Some(lv), Option::Some(dv), Option::Some(t), Option::Some(o)) => {
                let variant = if ntoks == 4 {
                    proof {
                        assert(toks@[1]@ == stoks[1]);
                    }
                    parse_variant(toks[1].as_slice())
                } else {
                    ToneVariant::Natural
                };
                MelodicNote { octave: o, tone: t, variant, delta: dv, length: lv }
            },
            _ => make_default_note(),
        }
    }
}

impl core::str::FromStr for MelodicNote {
    type Err = ();

    fn from_str(s: &str) -> Result<MelodicNote, ()> {
        Ok(MelodicNote::parse(s))
    }
}

/// Semitone offset of a tone letter from A in the same octave.
pub open spec fn tone_offset(t: ToneName) -> int {
    match t {
        ToneName::C => -9,
        ToneName::D => -7,
        ToneName::E => -5,
        ToneName::F => -4,
        ToneName::G => -2,
        ToneName::A => 0,
        ToneName::B => 2,
    }
}

/// Semitone shift of an accidental.
pub open spec fn variant_offset(v: ToneVariant) -> int {
    match v {
        ToneVariant::Flat => -1,
        ToneVariant::Natural => 0,
        ToneVariant::Sharp => 1,
        ToneVariant::Numeric(x) => x as int,
    }
}

/// Signed distance of a note from A4, in semitones.
pub open spec fn spec_semitones(n: MelodicNote) -> int {
    (n.octave - 4) * 12 + tone_offset(n.tone) + variant_offset(n.variant)
}

/// A note's duration in fixed-point seconds: the fraction of a whole
/// note times `240 / bpm`, division truncated toward zero.
pub open spec fn spec_note_duration_fp(length: (i64, i64), bpm_fp: i64) -> int {
    crate::math::tdiv(
        length.0 * 240 * FP_ONE * FP_ONE,
        length.1 * bpm_fp,
    )
}

/// A note's onset in fixed-point seconds: the bar's start plus the
/// note's offset, both in quarter notes, times `60 / bpm`, division
/// truncated toward zero.
pub open spec fn spec_note_onset_fp(
    bar_index: i64,
    time_signature: (i64, i64),
    delta: (i64, i64),
    bpm_fp: i64,
) -> int {
    crate::math::tdiv(
        ((bar_index - 1) * 4 * time_signature.0 * delta.1 + 4 * delta.0 * time_signature.1) * 60
            * FP_ONE * FP_ONE,
        time_signature.1 * delta.1 * bpm_fp,
    )
}

/// A note's duration in fixed-point seconds at the given fixed-point
/// tempo; `None` when it does not fit.
pub fn note_duration_fp(length: (i64, i64), bpm_fp: i64) -> (r: Option<i64>)
    requires
        length.1 != 0,
        bpm_fp != 0,
    ensures
        match r {
            Some(v) => v == spec_note_duration_fp(length, bpm_fp),
            None => spec_note_duration_fp(length, bpm_fp) > i64::MAX || spec_note_duration_fp(
                length,
                bpm_fp,
            ) < -i64::MAX,
        },
{
    proof {
        assert(length.0 * 240 * FP_ONE * FP_ONE == length.0 * (240 * FP_ONE * FP_ONE))
            by (nonlinear_arith);
        assert(-0x4000_0000_0000_0000_0000_0000_0000_0000 <= length.0 * (240 * FP_ONE * FP_ONE)
            <= 0x4000_0000_0000_0000_0000_0000_0000_0000) by (nonlinear_arith)
            requires
                -0x8000_0000_0000_0000 <= length.0 <= 0x7fff_ffff_ffff_ffff,
        ;
        assert(-0x4000_0000_0000_0000_0000_0000_0000_0000 <= length.1 * bpm_fp
            <= 0x4000_0000_0000_0000_0000_0000_0000_0000) by (nonlinear_arith)
            requires
                -0x8000_0000_0000_0000 <= length.1 <= 0x7fff_ffff_ffff_ffff,
                -0x8000_0000_0000_0000 <= bpm_fp <= 0x7fff_ffff_ffff_ffff,
        ;
        assert(length.1 * bpm_fp != 0) by (nonlinear_arith)
            requires
                length.1 != 0,
                bpm_fp != 0,
        ;
    }
    let num: i128 = (length.0 as i128) * 240 * (FP_ONE as i128) * (FP_ONE as i128);
    let den: i128 = (length.1 as i128) * (bpm_fp as i128);
    crate::math::tdiv_checked(num, den)
}

/// A note's onset in fixed-point seconds at the given fixed-point
/// tempo, bar and meter; `None` when it does not fit.  The bounds keep
/// the exact rational arithmetic inside 128 bits.
pub fn note_onset_fp(
    bar_index: i64,
    time_signature: (i64, i64),
    delta: (i64, i64),
    bpm_fp: i64,
) -> (r: Option<i64>)
    requires
        time_signature.1 != 0,
        delta.1 != 0,
        bpm_fp != 0,
        -1_000_000_000 <= bar_index <= 1_000_000_000,
        -1_000_000 <= time_signature.0 <= 1_000_000,
        -1_000_000 <= time_signature.1 <= 1_000_000,
        -1_000_000 <= delta.0 <= 1_000_000,
        -1_000_000 <= delta.1 <= 1_000_000,
    ensures
        match r {
            Some(v) => v == spec_note_onset_fp(bar_index, time_signature, delta, bpm_fp),
            None => spec_note_onset_fp(bar_index, time_signature, delta, bpm_fp) > i64::MAX
                || spec_note_onset_fp(bar_index, time_signature, delta, bpm_fp) < -i64::MAX,
        },
{
    proof {
        assert(-17_000_000_000_000_000_000_000 <= (bar_index - 1) * 4 * time_signature.0 * delta.1
            <= 17_000_000_000_000_000_000_000) by (nonlinear_arith)
            requires
                -1_000_000_001 <= bar_index - 1 <= 1_000_000_001,
                -1_000_000 <= time_signature.0 <= 1_000_000,
                -1_000_000 <= delta.1 <= 1_000_000,
        ;
        assert(-4_000_000_000_000 <= 4 * delta.0 * time_signature.1 <= 4_000_000_000_000)
            by (nonlinear_arith)
            requires
                -1_000_000 <= delta.0 <= 1_000_000,
                -1_000_000 <= time_signature.1 <= 1_000_000,
        ;
        let quarters = (bar_index - 1) * 4 * time_signature.0 * delta.1 + 4 * delta.0
            * time_signature.1;
        assert(-0x4000_0000_0000_0000_0000_0000_0000_0000 <= quarters * 60 * FP_ONE * FP_ONE
            <= 0x4000_0000_0000_0000_0000_0000_0000_0000) by (nonlinear_arith)
            requires
                -18_000_000_000_000_000_000_000 <= quarters <= 18_000_000_000_000_000_000_000,
        ;
        assert(-0x4000_0000_0000_0000_0000_0000_0000_0000 <= time_signature.1 * delta.1 * bpm_fp
            <= 0x4000_0000_0000_0000_0000_0000_0000_0000) by (nonlinear_arith)
            requires
                -1_000_000 <= time_signature.0 <= 1_000_000,
                -1_000_000 <= time_signature.1 <= 1_000_000,
                -1_000_000 <= delta.1 <= 1_000_000,
                -0x8000_0000_0000_0000 <= bpm_fp <= 0x7fff_ffff_ffff_ffff,
        ;
        assert(time_signature.1 * delta.1 * bpm_fp != 0) by (nonlinear_arith)
            requires
                time_signature.1 != 0,
                delta.1 != 0,
                bpm_fp != 0,
        ;
    }
    let b1: i128 = bar_index as i128 - 1;
    let q1: i128 = b1 * 4;
    proof {
        assert(-5_000_000_000_000_000 <= q1 * time_signature.0 <= 5_000_000_000_000_000)
            by (nonlinear_arith)
            requires
                -5_000_000_000 <= q1 <= 5_000_000_000,
                -1_000_000 <= time_signature.0 <= 1_000_000,
        ;
    }
    let q2: i128 = q1 * (time_signature.0 as i128);
    proof {
        assert(-5_000_000_000_000_000_000_000 <= q2 * delta.1 <= 5_000_000_000_000_000_000_000)
            by (nonlinear_arith)
            requires
                -5_000_000_000_000_000 <= q2 <= 5_000_000_000_000_000,
                -1_000_000 <= delta.1 <= 1_000_000,
        ;
    }
    let q3: i128 = q2 * (delta.1 as i128);
    let q4: i128 = 4 * (delta.0 as i128);
    proof {
        assert(-5_000_000_000_000 <= q4 * time_signature.1 <= 5_000_000_000_000)
            by (nonlinear_arith)
            requires
                -4_000_000 <= q4 <= 4_000_000,
                -1_000_000 <= time_signature.1 <= 1_000_000,
        ;
    }
    let q5: i128 = q4 * (time_signature.1 as i128);
    let quarters: i128 = q3 + q5;
    let n1: i128 = quarters * 60;
    proof {
        assert(-400_000_000_000_000_000_000_000_000_000 <= n1 * (FP_ONE as int)
            <= 400_000_000_000_000_000_000_000_000_000) by (nonlinear_arith)
            requires
                -400_000_000_000_000_000_000_000 <= n1 <= 400_000_000_000_000_000_000_000,
        ;
    }
    let n2: i128 = n1 * (FP_ONE as i128);
    proof {
        assert(-0x4000_0000_0000_0000_0000_0000_0000_0000 <= n2 * (FP_ONE as int)
            <= 0x4000_0000_0000_0000_0000_0000_0000_0000) by (nonlinear_arith)
            requires
                -400_000_000_000_000_000_000_000_000_000 <= n2
                    <= 400_000_000_000_000_000_000_000_000_000,
        ;
    }
    let num: i128 = n2 * (FP_ONE as i128);
    proof {
        assert(-1_000_000_000_000 <= time_signature.1 * delta.1 <= 1_000_000_000_000)
            by (nonlinear_arith)
            requires
                -1_000_000 <= time_signature.1 <= 1_000_000,
                -1_000_000 <= delta.1 <= 1_000_000,
        ;
        assert(-0x4000_0000_0000_0000_0000_0000_0000_0000 <= (time_signature.1 * delta.1) * bpm_fp
            <= 0x4000_0000_0000_0000_0000_0000_0000_0000) by (nonlinear_arith)
            requires
                -1_000_000_000_000 <= time_signature.1 * delta.1 <= 1_000_000_000_000,
                -0x8000_0000_0000_0000 <= bpm_fp <= 0x7fff_ffff_ffff_ffff,
        ;
    }
    let d1: i128 = (time_signature.1 as i128) * (delta.1 as i128);
    let den: i128 = d1 * (bpm_fp as i128);
    crate::math::tdiv_checked(num, den)
}

impl MelodicNote {
    /// Signed distance of this note from A4, in semitones; the pitch is
    /// `440 * 2^(semitones / 12)` hertz.
    pub fn semitones_from_a4(&self) -> (r: i64)
        requires
            i64::MIN + 9 <= (self.octave - 4) * 12 <= i64::MAX - 9,
            i64::MIN <= spec_semitones(*self) <= i64::MAX,
        ensures
            r == spec_semitones(*self),
    {
        proof {
            assert(i64::MIN <= self.octave - 4 <= i64::MAX) by (nonlinear_arith)
                requires
                    i64::MIN + 9 <= (self.octave - 4) * 12 <= i64::MAX - 9,
            ;
        }
        let base: i64 = (self.octave - 4) * 12;
        let with_tone: i64 = base + match self.tone {
            ToneName::C => -9,
            ToneName::D => -7,
            ToneName::E => -5,
            ToneName::F => -4,
            ToneName::G => -2,
            ToneName::A => 0,
            ToneName::B => 2,
        };
        let shift: i64 = match self.variant {
            ToneVariant::Flat => -1,
            ToneVariant::Natural => 0,
            ToneVariant::Sharp => 1,
            ToneVariant::Numeric(x) => x,
        };
        with_tone + shift
    }
}

} // verus!
