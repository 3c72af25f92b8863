use wav_gen::harmonics::NoteType;
use wav_gen::instruments::{instrument_for_name, note_type_for, InstrumentList};
use wav_gen::math::FP_ONE;
use wav_gen::wave_data::{generate_from_wave, WaveData};
use wav_gen::{GlobalParameters, ParamError, SheetLine, WavConfig};

#[test]
fn pcm8_round_trip_bound() {
    let mut data: Vec<u8> = WaveData::new();
    data.push_sample_data_from_fp(FP_ONE);
    data.push_sample_data_from_fp(-FP_ONE);
    data.push_sample_data_from_fp(0);
    assert_eq!(data, vec![254, 0, 127]);
}

#[test]
fn pcm16_little_endian() {
    let mut data: Vec<i16> = WaveData::new();
    data.push_sample_data_from_fp(FP_ONE);
    data.push_sample_data_from_fp(-FP_ONE);
    data.push_sample_data_from_fp(0);
    assert_eq!(data, vec![32760, -32760, 0]);
    assert_eq!(
        data.to_byte_slice(),
        vec![0xF8, 0x7F, 0x08, 0x80, 0x00, 0x00]
    );
    assert_eq!(data.get_size_in_bytes(), 6);
    assert_eq!(WaveData::len(&data), 3);
}

#[test]
fn pcm_format_fields() {
    let d8: Vec<u8> = WaveData::new();
    assert_eq!(d8.get_bits_per_sample(), 8);
    assert_eq!(d8.get_encoding(), 1);
    let d16: Vec<i16> = WaveData::new();
    assert_eq!(d16.get_bits_per_sample(), 16);
    assert_eq!(d16.get_encoding(), 1);
}

#[test]
fn generate_quantizes_resampled_wave() {
    let mut data: Vec<u8> = WaveData::new();
    // At the internal rate the samples pass through untouched.
    generate_from_wave(&mut data, &vec![0, FP_ONE, -FP_ONE], 44100);
    assert_eq!(data, vec![127, 254, 0]);
}

#[test]
fn wav_header_byte_exactness() {
    // 1 channel, 44100 Hz, 16 bits, 100 samples: 200 data bytes.
    let mut sound: Vec<i16> = WaveData::new();
    for _ in 0..100 {
        sound.push_sample_data_from_fp(0);
    }
    let cfg = WavConfig::new(String::from("out.wav"), 1, 44100, sound);
    let header = cfg.assemble_header();
    assert_eq!(header.len(), 44);
    // "RIFF" and "WAVE" tags.
    assert_eq!(&header[0..4], b"RIFF");
    assert_eq!(&header[8..12], b"WAVE");
    assert_eq!(&header[12..16], b"fmt ");
    assert_eq!(&header[36..40], b"data");
    // Chunk size: 200 + 36, little-endian.
    assert_eq!(&header[4..8], &[236, 0, 0, 0]);
    // Encoding tag 1 (integer PCM) and channel count 1.
    assert_eq!(&header[20..22], &[1, 0]);
    assert_eq!(&header[22..24], &[1, 0]);
    // Sample rate 44100 = 0xAC44.
    assert_eq!(&header[24..28], &[0x44, 0xAC, 0, 0]);
    // Byte rate 88200 = 0x15888.
    assert_eq!(&header[28..32], &[0x88, 0x58, 0x01, 0]);
    // Block align 2, bits per sample 16.
    assert_eq!(&header[32..34], &[2, 0]);
    assert_eq!(&header[34..36], &[16, 0]);
    // Data chunk length 200.
    assert_eq!(&header[40..44], &[200, 0, 0, 0]);
    assert_eq!(cfg.sound.len(), 200);
}

#[test]
fn wav_config_from_encoded_float() {
    let cfg = WavConfig::from_encoded(String::from("f.wav"), 1, 44100, 32, 3, vec![0u8; 8]);
    assert_eq!(cfg.bits_per_sample, 32);
    assert_eq!(cfg.encoding, 3);
    assert_eq!(cfg.byte_rate, 176400);
    assert_eq!(cfg.block_align, 4);
    assert_eq!(cfg.subchunk_2_size, 8);
    assert_eq!(cfg.chunk_size, 44);
    let header = cfg.assemble_header();
    assert_eq!(&header[20..22], &[3, 0]);
    assert_eq!(&header[34..36], &[32, 0]);
}

#[test]
fn sheet_line_classification() {
    assert!(matches!(wav_gen::classify_line(b""), SheetLine::Ignored));
    assert!(matches!(
        wav_gen::classify_line(b"# a comment"),
        SheetLine::Ignored
    ));
    assert!(matches!(wav_gen::classify_line(b"record"), SheetLine::Record));
    assert!(matches!(wav_gen::classify_line(b"end"), SheetLine::End));
    assert!(matches!(
        wav_gen::classify_line(b"loop"),
        SheetLine::BadKeyword
    ));
    assert!(matches!(
        wav_gen::classify_line(b"1, a4 0 1/4"),
        SheetLine::NoteBar { first_comma: 1 }
    ));
    assert!(matches!(
        wav_gen::classify_line(b"notesheet: sinewave, volume: 2"),
        SheetLine::Config {
            first_colon: 9,
            first_comma: Some(19)
        }
    ));
    assert!(matches!(
        wav_gen::classify_line(b"bpm: 90"),
        SheetLine::Config {
            first_colon: 3,
            first_comma: None
        }
    ));
}

#[test]
fn colon_splitting_trims() {
    let (k, v) = wav_gen::cut_with_colon(b"  bpm :  150  ").unwrap();
    assert_eq!(k, b"bpm".to_vec());
    assert_eq!(v, b"150".to_vec());
    assert!(wav_gen::cut_with_colon(b"no colon here").is_none());
}

#[test]
fn global_parameter_updates() {
    let mut g = GlobalParameters::new_default();
    assert_eq!(g.sample_rate, 44100);
    assert_eq!(g.bits_per_sample, 16);
    assert_eq!(g.beats_per_minute, 120 * FP_ONE);
    assert_eq!(g.time_signature, (4, 4));

    assert_eq!(g.update(b"samplerate", b"48000"), Ok(()));
    assert_eq!(g.sample_rate, 48000);
    assert_eq!(g.update(b"bitspersample", b"8"), Ok(()));
    assert_eq!(g.bits_per_sample, 8);
    assert_eq!(g.update(b"bpm", b"90"), Ok(()));
    assert_eq!(g.beats_per_minute, 90 * FP_ONE);
    assert_eq!(g.update(b"beatsperminute", b"120.5"), Ok(()));
    assert_eq!(g.beats_per_minute, 120_500_000);
    assert_eq!(g.update(b"time_signature", b"3/4"), Ok(()));
    assert_eq!(g.time_signature, (3, 4));
    assert_eq!(g.update(b"name", b"song.wav"), Ok(()));
    assert_eq!(g.name, b"song.wav".to_vec());

    assert_eq!(g.update(b"volume", b"2"), Err(ParamError::UnknownKey));
    assert_eq!(g.update(b"samplerate", b"loud"), Err(ParamError::BadValue));
    assert_eq!(g.update(b"samplerate", b"-1"), Err(ParamError::BadValue));
    assert_eq!(g.update(b"time_signature", b"4"), Err(ParamError::BadValue));
    assert_eq!(g.bits_per_sample, 8);
}

#[test]
fn instrument_selection() {
    assert_eq!(
        instrument_for_name(b"sinewave"),
        Some(InstrumentList::SineWave)
    );
    assert_eq!(
        instrument_for_name(b"simpledrum"),
        Some(InstrumentList::Xylophone)
    );
    assert_eq!(instrument_for_name(b"piano"), None);
    assert!(note_type_for(&InstrumentList::Unset).is_none());
    assert!(matches!(
        note_type_for(&InstrumentList::SineWave),
        Some(NoteType::MelodicNote)
    ));
}

#[test]
fn tempo_decimal_parsing() {
    assert_eq!(wav_gen::parse_decimal_fp(b"120"), Some(120 * FP_ONE));
    assert_eq!(wav_gen::parse_decimal_fp(b"120.5"), Some(120_500_000));
    assert_eq!(wav_gen::parse_decimal_fp(b"-0.25"), Some(-250_000));
    assert_eq!(wav_gen::parse_decimal_fp(b"0.000001"), Some(1));
    assert_eq!(wav_gen::parse_decimal_fp(b"1."), None);
    assert_eq!(wav_gen::parse_decimal_fp(b"fast"), None);
}
