use wav_gen::math::{linerp, linerp_from_sample_rate, linspace_from_n, FP_ONE, SAMPLE_LIMIT};
use wav_gen::track::{LinearFadeInOut, Mask, Track};

fn fp(x: i64) -> i64 {
    x * FP_ONE
}

#[test]
fn mix_range_union() {
    // a: origin 10, length 5; b: origin 0, length 8.
    let a = Track::from_samples_at(vec![fp(1); 5], 10);
    let b = Track::from_samples(vec![fp(2); 8]);
    let m = a.mix(&b);
    assert_eq!(m.starting_sample_index, 0);
    assert_eq!(m.track.len(), 15);
    // b's head, a silent gap, then a's tail.
    for i in 0..8 {
        assert_eq!(m.track[i], fp(2));
    }
    for i in 8..10 {
        assert_eq!(m.track[i], 0);
    }
    for i in 10..15 {
        assert_eq!(m.track[i], fp(1));
    }
}

#[test]
fn mix_is_commutative() {
    let a = Track::from_samples_at(vec![1000, -2000, 3000], 4);
    let b = Track::from_samples(vec![500, 600, 700, 800, 900, 1000]);
    let m1 = a.mix(&b);
    let m2 = b.mix(&a);
    assert_eq!(m1.starting_sample_index, m2.starting_sample_index);
    assert_eq!(m1.track, m2.track);
}

#[test]
fn mix_is_associative() {
    let a = Track::from_samples_at(vec![100, 200], 3);
    let b = Track::from_samples(vec![10, 20, 30, 40, 50]);
    let c = Track::from_samples_at(vec![-7, -8, -9], 1);
    let left = a.mix(&b).mix(&c);
    let right = a.mix(&b.mix(&c));
    assert_eq!(left.starting_sample_index, right.starting_sample_index);
    assert_eq!(left.track, right.track);
}

#[test]
fn mix_with_empty_copies() {
    let a = Track::from_samples_at(vec![fp(1), fp(-1)], 7);
    let empty = Track::new();
    let m = empty.mix(&a);
    assert_eq!(m.starting_sample_index, 7);
    assert_eq!(m.track, a.track);
}

#[test]
fn mix_applies_pending_gain() {
    let mut a = Track::from_samples(vec![300, -600]);
    a.normalize(); // gain becomes FP_ONE / 600
    let m = a.mix(&Track::new());
    assert_eq!(m.track, vec![500_000, -1_000_000]);
    assert_eq!(m.loudness_num, 1);
    assert_eq!(m.loudness_den, 1);
}

#[test]
fn try_mix_checks_the_sample_bounds() {
    let a = Track::from_samples(vec![1, 2]);
    let b = Track::from_samples(vec![3, 4, 5]);
    let m = a.try_mix(&b).unwrap();
    assert_eq!(m.track, vec![4, 6, 5]);
    let loud = Track::from_samples(vec![SAMPLE_LIMIT]);
    assert!(loud.try_mix(&loud).is_none());
}

#[test]
fn peak_finds_the_loudest_sample() {
    assert_eq!(Track::new().peak(), 0);
    let t = Track::from_samples(vec![3, -9, 7]);
    assert_eq!(t.peak(), 9);
}

#[test]
fn cut_extends_with_silence() {
    let mut t = Track::from_samples(vec![1, 2, 3]);
    // 200 fixed-point seconds is 8 samples at 44100 Hz (8.82 truncated).
    t.cut(0, 200);
    assert_eq!(t.starting_sample_index, 0);
    assert_eq!(t.track, vec![1, 2, 3, 0, 0, 0, 0, 0]);
}

#[test]
fn cut_rebases_origin() {
    let mut t = Track::from_samples(vec![10, 20, 30, 40, 50, 60, 70, 80, 90, 100]);
    // 100 fp seconds -> sample 4; 200 fp seconds -> sample 8.
    t.cut(100, 200);
    assert_eq!(t.starting_sample_index, 4);
    assert_eq!(t.track, vec![50, 60, 70, 80]);
}

#[test]
fn start_with_silence_pads() {
    let mut t = Track::from_samples_at(vec![5, 6], 3);
    t.start_with_silence();
    assert_eq!(t.starting_sample_index, 0);
    assert_eq!(t.track, vec![0, 0, 0, 5, 6]);
}

#[test]
fn global_sample_lookup() {
    let t = Track::from_samples_at(vec![7, 8, 9], 2);
    assert_eq!(t.sample_in_global(1), 0);
    assert_eq!(t.sample_in_global(2), 7);
    assert_eq!(t.sample_in_global(4), 9);
    assert_eq!(t.sample_in_global(5), 0);
    assert_eq!(t.ending_sample_index(), 5);
}

#[test]
fn value_at_time() {
    let t = Track::from_samples(vec![7, 8, 9]);
    // 23 fp seconds is sample 1 (1.01 truncated).
    assert_eq!(t.get_value_at_t(23), 8);
    assert_eq!(t.get_value_at_t(0), 7);
    assert_eq!(t.get_value_at_t(fp(1)), 0);
}

#[test]
fn time_index_conversions() {
    assert_eq!(Track::time_to_sample_index(FP_ONE), 44100);
    assert_eq!(Track::time_to_sample_index(0), 0);
    assert_eq!(Track::time_to_sample_index(-5), 0);
    assert_eq!(Track::sample_index_to_time(44100), FP_ONE);
    assert_eq!(Track::sample_index_to_time(5), 113);
}

#[test]
fn normalize_apply_reaches_full_scale() {
    let mut t = Track::from_samples(vec![250_000, -500_000, 100_000]);
    t.normalize();
    t.apply_loudness();
    assert_eq!(t.track, vec![500_000, -1_000_000, 200_000]);
    assert_eq!(t.track.iter().map(|s| s.abs()).max(), Some(FP_ONE));
}

#[test]
fn normalize_apply_is_idempotent() {
    let mut t = Track::from_samples(vec![250_000, -500_000, 100_000]);
    t.normalize();
    t.apply_loudness();
    let first = t.track.clone();
    t.normalize();
    t.apply_loudness();
    assert_eq!(t.track, first);
}

#[test]
fn fade_in_boundary_values() {
    // 100 fp seconds is a 4-sample window.
    let mut t = Track::from_samples(vec![FP_ONE; 10]);
    LinearFadeInOut::in_l(100).apply(&mut t);
    assert_eq!(t.track[0], 0);
    assert_eq!(t.track[1], 250_000);
    assert_eq!(t.track[2], 500_000);
    assert_eq!(t.track[3], 750_000);
    assert_eq!(t.track[4], FP_ONE);
    assert_eq!(t.track[9], FP_ONE);
}

#[test]
fn fade_in_long_window_ends_near_full_scale() {
    // 10000 fp seconds is a 441-sample window.
    let mut t = Track::from_samples(vec![FP_ONE; 441]);
    LinearFadeInOut::in_l(10_000).apply(&mut t);
    assert_eq!(t.track[0], 0);
    assert_eq!(t.track[440], 997_732);
    assert!(FP_ONE - t.track[440] <= FP_ONE / 441 + 1);
}

#[test]
fn fade_out_boundary_values() {
    let mut t = Track::from_samples(vec![FP_ONE; 10]);
    LinearFadeInOut::out_l(100).apply(&mut t);
    assert_eq!(t.track[5], FP_ONE);
    assert_eq!(t.track[6], FP_ONE);
    assert_eq!(t.track[7], 750_000);
    assert_eq!(t.track[8], 500_000);
    assert_eq!(t.track[9], 250_000);
}

#[test]
fn resample_identity() {
    let x = vec![5, -10, 2_000_000, 0, 7];
    let y = linerp_from_sample_rate(&x, 8000, 8000);
    assert_eq!(x, y);
}

#[test]
fn resample_double_rate() {
    let x = vec![0, FP_ONE, 500_000];
    let y = linerp_from_sample_rate(&x, 8000, 16000);
    assert_eq!(y.len(), 2 * (x.len() - 1) + 1);
    // Every output at an original input time is the original sample.
    assert_eq!(y[0], x[0]);
    assert_eq!(y[2], x[1]);
    assert_eq!(y[4], x[2]);
    // Midpoints interpolate linearly, truncating toward zero.
    assert_eq!(y[1], 500_000);
    assert_eq!(y[3], 750_000);
}

#[test]
fn linerp_interpolates() {
    assert_eq!(linerp((0, 0), (10, 10), 5), 5);
    assert_eq!(linerp((0, 0), (2, 1), 1), 0);
    assert_eq!(linerp((0, 10), (4, 2), 2), 6);
}

#[test]
fn linspace_includes_endpoints() {
    let v = linspace_from_n(0, 10, 5);
    assert_eq!(v, vec![0, 2, 5, 7, 10]);
    let w = linspace_from_n(-4, 4, 3);
    assert_eq!(w, vec![-4, 0, 4]);
}
