use std::str::FromStr;
use wav_gen::harmonics::{self, MelodicNote, ToneName, ToneVariant};

#[test]
fn note_parsing() {
    // "A4 0 1/4"
    let a4 = harmonics::MelodicNote {
        octave: 4,
        tone: harmonics::ToneName::A,
        variant: harmonics::ToneVariant::Natural,
        delta: (0, 1),
        length: (1, 4),
    };
    // "C3 Flat 1/4 1/4"
    let c3 = harmonics::MelodicNote {
        octave: 3,
        tone: harmonics::ToneName::C,
        variant: harmonics::ToneVariant::Flat,
        delta: (1, 4),
        length: (1, 4),
    };
    // "d5 3/2 1/8"
    let d5 = harmonics::MelodicNote {
        octave: 5,
        tone: harmonics::ToneName::D,
        variant: harmonics::ToneVariant::Sharp,
        delta: (3, 2),
        length: (1, 8),
    };
    assert_eq!(a4, harmonics::MelodicNote::from_str("A4 0 1/4").unwrap());
    assert_eq!(
        c3,
        harmonics::MelodicNote::from_str("C3 Flat 1/4 1/4").unwrap()
    );
    assert_eq!(
        d5,
        harmonics::MelodicNote::from_str("d5 sharp 3/2 1/8").unwrap()
    );
}

#[test]
fn note_parsing_gibberish() {
    let a4 = harmonics::MelodicNote {
        octave: 4,
        tone: harmonics::ToneName::A,
        variant: harmonics::ToneVariant::Natural,
        delta: (0, 1),
        length: (1, 4),
    };
    assert_eq!(
        a4,
        harmonics::MelodicNote::from_str("A 440 hz please").unwrap()
    );
}

#[test]
fn note_parsing_numeric_variant() {
    let n = MelodicNote::parse("g2 -3 1/2 2");
    assert_eq!(n.tone, ToneName::G);
    assert_eq!(n.octave, 2);
    assert_eq!(n.variant, ToneVariant::Numeric(-3));
    assert_eq!(n.delta, (1, 2));
    assert_eq!(n.length, (2, 1));
}

#[test]
fn note_parsing_negative_octave() {
    let n = MelodicNote::parse("b-1 0 1");
    assert_eq!(n.tone, ToneName::B);
    assert_eq!(n.octave, -1);
    assert_eq!(n.variant, ToneVariant::Natural);
}

#[test]
fn semitone_distances() {
    // A4 is the reference point.
    assert_eq!(MelodicNote::parse("a4 0 1/4").semitones_from_a4(), 0);
    // C3 flat: one octave and nine semitones down, and one more for the flat.
    assert_eq!(MelodicNote::parse("c3 flat 1/4 1/4").semitones_from_a4(), -22);
    // D5 sharp: one octave up, seven down to D, one back up.
    assert_eq!(MelodicNote::parse("d5 sharp 3/2 1/8").semitones_from_a4(), 6);
}

#[test]
fn integer_token_parsing() {
    assert_eq!(harmonics::parse_i64(b"0"), Some(0));
    assert_eq!(harmonics::parse_i64(b"-42"), Some(-42));
    assert_eq!(harmonics::parse_i64(b"007"), Some(7));
    assert_eq!(harmonics::parse_i64(b""), None);
    assert_eq!(harmonics::parse_i64(b"-"), None);
    assert_eq!(harmonics::parse_i64(b"12a"), None);
    assert_eq!(harmonics::parse_i64(b"99999999999999999999"), None);
}

#[test]
fn fraction_token_parsing() {
    assert_eq!(harmonics::parse_fraction(b"3/2"), Some((3, 2)));
    assert_eq!(harmonics::parse_fraction(b"5"), Some((5, 1)));
    assert_eq!(harmonics::parse_fraction(b"-1/8"), Some((-1, 8)));
    assert_eq!(harmonics::parse_fraction(b"a/2"), None);
}

#[test]
fn parse_unwrap_reads_checked_tokens() {
    harmonics::par_check(2, 2);
    assert_eq!(harmonics::parse_unwrap("-42"), -42);
    assert_eq!(harmonics::parse_unwrap("120"), 120);
}

#[test]
fn note_timing() {
    let fp = 1_000_000i64;
    // A quarter note at 120 bpm lasts half a second.
    assert_eq!(harmonics::note_duration_fp((1, 4), 120 * fp), Some(fp / 2));
    // A half note at 90 bpm: 1/2 * 240 / 90 seconds.
    assert_eq!(
        harmonics::note_duration_fp((1, 2), 90 * fp),
        Some(1_333_333)
    );
    // Bar two in common time, half a whole note into the bar, at 120 bpm:
    // six quarters in, three seconds.
    assert_eq!(
        harmonics::note_onset_fp(2, (4, 4), (1, 2), 120 * fp),
        Some(3 * fp)
    );
    // The first bar starts at zero.
    assert_eq!(
        harmonics::note_onset_fp(1, (4, 4), (0, 1), 120 * fp),
        Some(0)
    );
    // A duration too long for the fixed-point range is refused.
    assert_eq!(harmonics::note_duration_fp((i64::MAX, 1), 1), None);
}

#[test]
fn byte_splitting() {
    let toks = harmonics::split_bytes(b"a4 0 1/4", 32);
    let toks: Vec<&[u8]> = toks.iter().map(|t| t.as_slice()).collect();
    assert_eq!(toks, vec![&b"a4"[..], &b"0"[..], &b"1/4"[..]]);
    let empty = harmonics::split_bytes(b"", 32);
    assert_eq!(empty.len(), 1);
    assert!(empty[0].is_empty());
}
