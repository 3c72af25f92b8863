//! Fixed-point arithmetic helpers and the linear-interpolation utilities:
//! scaling by a rational factor, point interpolation (`linerp`), evenly
//! spaced points (`linspace_from_n`) and rate conversion
//! (`linerp_from_sample_rate`).

use vstd::prelude::*;

verus! {

/// One in fixed-point units: the amplitude `1.0`, and one second of time.
pub const FP_ONE: i64 = 1_000_000;

/// Largest sample magnitude the library works with.  Two values of this
/// size can be added without leaving `i64`.
pub const SAMPLE_LIMIT: i64 = 0x3fff_ffff_ffff_ffff;

/// Absolute value of a mathematical integer.
pub open spec fn abs_i(v: int) -> int {
    if v >= 0 {
        v
    } else {
        -v
    }
}

/// `v * num / den` with the division truncated toward zero; the meaning of
/// every rational scaling (gains, fade envelopes, interpolation steps) in
/// this library.  `num` and `den` must be non-negative, `den` non-zero.
pub open spec fn scale_down(v: int, num: int, den: int) -> int {
    if v >= 0 {
        (v * num) / den
    } else {
        -((-v * num) / den)
    }
}

/// Scaling never grows the magnitude beyond `v * num / den` of the
/// magnitude bound: monotone in `|v|`.
pub proof fn lemma_scale_mag_monotone(v: int, bound: int, num: int, den: int)
    requires
        abs_i(v) <= bound,
        num >= 0,
        den >= 1,
    ensures
        abs_i(scale_down(v, num, den)) <= (bound * num) / den,
{
    let m = abs_i(v);
    assert(m * num <= bound * num) by (nonlinear_arith)
        requires
            0 <= m <= bound,
            num >= 0,
    ;
    assert((m * num) / den <= (bound * num) / den) by {
        vstd::arithmetic::div_mod::lemma_div_is_ordered(m * num, bound * num, den);
    }
    assert(m * num >= 0) by (nonlinear_arith)
        requires
            m >= 0,
            num >= 0,
    ;
    assert((m * num) / den >= 0) by {
        vstd::arithmetic::div_mod::lemma_div_pos_is_pos(m * num, den);
    }
}

/// With a factor `num/den` at most one, scaling never grows the magnitude.
pub proof fn lemma_scale_shrinks(v: int, num: int, den: int)
    requires
        0 <= num <= den,
        den >= 1,
    ensures
        abs_i(scale_down(v, num, den)) <= abs_i(v),
{
    let m = abs_i(v);
    assert(m * num <= m * den) by (nonlinear_arith)
        requires
            0 <= num <= den,
            m >= 0,
    ;
    assert((m * num) / den <= (m * den) / den) by {
        vstd::arithmetic::div_mod::lemma_div_is_ordered(m * num, m * den, den);
    }
    assert((m * den) / den == m) by {
        vstd::arithmetic::div_mod::lemma_div_by_multiple(m, den);
    }
    assert(m * num >= 0) by (nonlinear_arith)
        requires
            m >= 0,
            num >= 0,
    ;
    assert((m * num) / den >= 0) by {
        vstd::arithmetic::div_mod::lemma_div_pos_is_pos(m * num, den);
    }
}

/// The magnitude of a scaled value is the scaled magnitude.
pub proof fn lemma_scale_down_mag(v: int, num: int, den: int)
    requires
        num >= 0,
        den >= 1,
    ensures
        abs_i(scale_down(v, num, den)) == (abs_i(v) * num) / den,
{
    let m = abs_i(v);
    assert(m * num >= 0) by (nonlinear_arith)
        requires
            m >= 0,
            num >= 0,
    ;
    vstd::arithmetic::div_mod::lemma_div_pos_is_pos(m * num, den);
}

/// Scaling is monotone in the magnitude of the value scaled.
pub proof fn lemma_scale_mag_le(v: int, w: int, num: int, den: int)
    requires
        abs_i(v) <= abs_i(w),
        num >= 0,
        den >= 1,
    ensures
        abs_i(scale_down(v, num, den)) <= abs_i(scale_down(w, num, den)),
{
    lemma_scale_down_mag(v, num, den);
    lemma_scale_down_mag(w, num, den);
    assert(abs_i(v) * num <= abs_i(w) * num) by (nonlinear_arith)
        requires
            0 <= abs_i(v) <= abs_i(w),
            num >= 0,
    ;
    vstd::arithmetic::div_mod::lemma_div_is_ordered(abs_i(v) * num, abs_i(w) * num, den);
}

/// Scaling by a factor of one (equal numerator and denominator) is the
/// identity.
pub proof fn lemma_scale_identity(v: int, den: int)
    requires
        den >= 1,
    ensures
        scale_down(v, den, den) == v,
{
    let m = abs_i(v);
    assert((m * den) / den == m) by {
        vstd::arithmetic::div_mod::lemma_div_by_multiple(m, den);
    }
}

/// Division truncated toward zero for arbitrary signs; the denominator
/// must be non-zero for the result to be meaningful.
pub open spec fn tdiv(a: int, b: int) -> int {
    if (a >= 0) == (b >= 0) {
        abs_i(a) / abs_i(b)
    } else {
        -(abs_i(a) / abs_i(b))
    }
}

/// Exec scaling: `v * num / den`, truncated toward zero, computed without
/// overflow through 128-bit intermediates.
pub fn scale_i64(v: i64, num: u64, den: u64) -> (r: i64)
    requires
        den >= 1,
        -SAMPLE_LIMIT <= v <= SAMPLE_LIMIT,
        abs_i(scale_down(v as int, num as int, den as int)) <= i64::MAX,
    ensures
        r == scale_down(v as int, num as int, den as int),
{
    proof {
        assert(abs_i(v as int) * num <= SAMPLE_LIMIT * u64::MAX) by (nonlinear_arith)
            requires
                0 <= abs_i(v as int) <= SAMPLE_LIMIT,
                0 <= num <= u64::MAX,
        ;
    }
    if v >= 0 {
        let scaled: u128 = (v as u128) * (num as u128) / (den as u128);
        assert(scaled == (v * num) / (den as int));
        scaled as i64
    } else {
        let mag: u128 = (-(v as i128)) as u128;
        assert(mag == abs_i(v as int));
        let scaled: u128 = mag * (num as u128) / (den as u128);
        assert(scaled == (-(v as int) * num) / (den as int));
        -(scaled as i64)
    }
}

/// Truncating division of 128-bit values with the quotient checked
/// against `i64`; `None` when it does not fit.
pub fn tdiv_checked(num: i128, den: i128) -> (r: Option<i64>)
    requires
        den != 0,
        -0x4000_0000_0000_0000_0000_0000_0000_0000 <= num
            <= 0x4000_0000_0000_0000_0000_0000_0000_0000,
        -0x4000_0000_0000_0000_0000_0000_0000_0000 <= den
            <= 0x4000_0000_0000_0000_0000_0000_0000_0000,
    ensures
        match r {
            Some(v) => -i64::MAX <= tdiv(num as int, den as int) <= i64::MAX && v == tdiv(
                num as int,
                den as int,
            ),
            None => tdiv(num as int, den as int) > i64::MAX || tdiv(num as int, den as int)
                < -i64::MAX,
        },
{
    let na: u128 = if num >= 0 {
        num as u128
    } else {
        (-num) as u128
    };
    let da: u128 = if den >= 0 {
        den as u128
    } else {
        (-den) as u128
    };
    assert(na == abs_i(num as int));
    assert(da == abs_i(den as int));
    let q: u128 = na / da;
    if q > (i64::MAX as u128) {
        return None;
    }
    if (num >= 0) == (den >= 0) {
        Some(q as i64)
    } else {
        Some(-(q as i64))
    }
}

/// Value of `f(x3)` under the assumption that `f` is linear between
/// `p1 = (x1, y1)` and `p2 = (x2, y2)`:
/// `y1 + (x3 - x1) * (y2 - y1) / (x2 - x1)`, division truncated toward zero.
pub open spec fn spec_linerp(p1: (i64, i64), p2: (i64, i64), x3: i64) -> int {
    p1.1 + tdiv((x3 - p1.0) * (p2.1 - p1.1), p2.0 - p1.0)
}

/// Linear interpolation between two points, evaluated at `x3`.
pub fn linerp(p1: (i64, i64), p2: (i64, i64), x3: i64) -> (r: i64)
    requires
        p1.0 != p2.0,
        -SAMPLE_LIMIT <= p1.0 <= SAMPLE_LIMIT,
        -SAMPLE_LIMIT <= p2.0 <= SAMPLE_LIMIT,
        -SAMPLE_LIMIT <= p1.1 <= SAMPLE_LIMIT,
        -SAMPLE_LIMIT <= p2.1 <= SAMPLE_LIMIT,
        -SAMPLE_LIMIT <= x3 <= SAMPLE_LIMIT,
        i64::MIN <= spec_linerp(p1, p2, x3) <= i64::MAX,
    ensures
        r == spec_linerp(p1, p2, x3),
{
    let (x1, y1) = p1;
    let (x2, y2) = p2;
    proof {
        assert((x3 - x1) * (y2 - y1) <= (2 * SAMPLE_LIMIT) * (2 * SAMPLE_LIMIT)
            && (x3 - x1) * (y2 - y1) >= -((2 * SAMPLE_LIMIT) * (2 * SAMPLE_LIMIT)))
            by (nonlinear_arith)
            requires
                -(2 * SAMPLE_LIMIT) <= x3 - x1 <= 2 * SAMPLE_LIMIT,
                -(2 * SAMPLE_LIMIT) <= y2 - y1 <= 2 * SAMPLE_LIMIT,
        ;
    }
    let num: i128 = (x3 as i128 - x1 as i128) * (y2 as i128 - y1 as i128);
    let den: i128 = x2 as i128 - x1 as i128;
    let na: u128 = if num >= 0 {
        num as u128
    } else {
        (-num) as u128
    };
    let da: u128 = if den >= 0 {
        den as u128
    } else {
        (-den) as u128
    };
    let q: u128 = na / da;
    assert(q == abs_i(num as int) / abs_i(den as int));
    let sum: i128 = if (num >= 0) == (den >= 0) {
        y1 as i128 + q as i128
    } else {
        y1 as i128 - q as i128
    };
    assert(sum == spec_linerp(p1, p2, x3));
    sum as i64
}

/// `n` evenly spaced values from `x0` to `x1`, both endpoints included:
/// the `i`-th value is `x0 + (x1 - x0) * i / (n - 1)`, truncated.
pub fn linspace_from_n(x0: i64, x1: i64, n: usize) -> (r: Vec<i64>)
    requires
        n >= 2,
        -SAMPLE_LIMIT <= x0 < x1 <= SAMPLE_LIMIT,
    ensures
        r@.len() == n,
        forall|i: int|
            0 <= i < n ==> r@[i] == x0 + scale_down(x1 - x0, i, n - 1),
        r@[0] == x0,
        r@[n - 1] == x1,
{
    let d: u128 = (x1 - x0) as u128;
    let den: u128 = (n - 1) as u128;
    let mut out: Vec<i64> = Vec::new();
    let mut i: usize = 0;
    while i < n
        invariant
            0 <= i <= n,
            n >= 2,
            -SAMPLE_LIMIT <= x0 < x1 <= SAMPLE_LIMIT,
            d == x1 - x0,
            den == n - 1,
            out@.len() == i,
            forall|j: int|
                0 <= j < i ==> out@[j] == x0 + scale_down(x1 - x0, j, n - 1),
        decreases n - i,
    {
        proof {
            assert(d * i <= d * (n - 1)) by (nonlinear_arith)
                requires
                    0 <= i <= n - 1,
                    d >= 0,
            ;
            assert(d * (n - 1) <= (2 * SAMPLE_LIMIT) * (u64::MAX as int)) by (nonlinear_arith)
                requires
                    0 <= d <= 2 * SAMPLE_LIMIT,
                    0 <= n - 1 <= u64::MAX,
            ;
        }
        let m: u128 = d * (i as u128) / den;
        proof {
            assert((d as int * i) / (den as int) <= (d as int * (n - 1)) / (den as int)) by {
                vstd::arithmetic::div_mod::lemma_div_is_ordered(
                    d as int * i,
                    d as int * (n - 1),
                    den as int,
                );
            }
            assert((d as int * (n - 1)) / (den as int) == d) by {
                vstd::arithmetic::div_mod::lemma_div_by_multiple(d as int, den as int);
            }
            assert(d * i >= 0) by (nonlinear_arith)
                requires
                    d >= 0,
                    i >= 0,
            ;
            assert((d as int * i) / (den as int) >= 0) by {
                vstd::arithmetic::div_mod::lemma_div_pos_is_pos(d as int * i, den as int);
            }
        }
        out.push(x0 + (m as i64));
        i = i + 1;
    }
    proof {
        assert(out@[0] == x0 + scale_down(x1 - x0, 0, n - 1));
        assert(scale_down(x1 - x0, 0, n - 1) == 0) by {
            vstd::arithmetic::div_mod::lemma_div_of0(n - 1);
        }
        assert(out@[n - 1] == x0 + scale_down(x1 - x0, n - 1, n - 1));
        assert(scale_down(x1 - x0, n - 1, n - 1) == x1 - x0) by {
            vstd::arithmetic::div_mod::lemma_div_by_multiple(x1 - x0, n - 1);
        }
    }
    out
}

/// Number of samples produced when a buffer of `n` samples at `old_rate`
/// is resampled to `new_rate`: one sample for every output time
/// `k / new_rate` up to and including the last input time
/// `(n - 1) / old_rate`.
pub open spec fn resample_len(n: nat, old_rate: int, new_rate: int) -> nat {
    if n == 0 {
        0nat
    } else {
        (((n - 1) * new_rate) / old_rate + 1) as nat
    }
}

/// The `k`-th resampled value: the output time `k / new_rate` falls
/// between input samples `q` and `q + 1`, and the value is interpolated
/// linearly between them (exactly `s[q]` when the times coincide).
pub open spec fn resample_at(s: Seq<i64>, old_rate: int, new_rate: int, k: int) -> int {
    let q = (k * old_rate) / new_rate;
    let r = (k * old_rate) % new_rate;
    if r == 0 {
        s[q] as int
    } else {
        s[q] + scale_down(s[q + 1] - s[q], r, new_rate)
    }
}

/// The input samples bracketing output sample `k` exist: the lower index
/// is in range, and when interpolation is strict the upper one is too.
pub proof fn lemma_resample_bracket(n: nat, old_rate: int, new_rate: int, k: int)
    requires
        old_rate >= 1,
        new_rate >= old_rate,
        n >= 1,
        0 <= k < resample_len(n, old_rate, new_rate),
    ensures
        0 <= (k * old_rate) / new_rate <= n - 1,
        (k * old_rate) % new_rate != 0 ==> (k * old_rate) / new_rate + 1 <= n - 1,
{
    let ko = k * old_rate;
    let top = (n - 1) * new_rate;
    let cap = top / old_rate;
    assert(k <= cap);
    assert(k * old_rate >= 0) by (nonlinear_arith)
        requires
            k >= 0,
            old_rate >= 1,
    ;
    assert(k * old_rate <= cap * old_rate) by (nonlinear_arith)
        requires
            k <= cap,
            old_rate >= 1,
    ;
    assert(cap * old_rate <= top) by {
        vstd::arithmetic::div_mod::lemma_fundamental_div_mod(top, old_rate);
        vstd::arithmetic::div_mod::lemma_mod_division_less_than_divisor(top, old_rate);
        assert(top == old_rate * (top / old_rate) + top % old_rate);
        assert(old_rate * cap == cap * old_rate) by (nonlinear_arith);
    }
    assert(top <= (n - 1) * new_rate);
    let q = ko / new_rate;
    let r = ko % new_rate;
    vstd::arithmetic::div_mod::lemma_fundamental_div_mod(ko, new_rate);
    vstd::arithmetic::div_mod::lemma_mod_division_less_than_divisor(ko, new_rate);
    vstd::arithmetic::div_mod::lemma_div_pos_is_pos(ko, new_rate);
    assert(ko == new_rate * q + r);
    // q <= n - 1, else new_rate * q >= new_rate * n > ko
    assert(new_rate * q <= ko);
    assert(q <= n - 1) by (nonlinear_arith)
        requires
            new_rate * q <= (n - 1) * new_rate,
            new_rate >= 1,
            q == ((k * old_rate) / new_rate),
            new_rate * q + r == k * old_rate,
            0 <= r,
            k * old_rate <= (n - 1) * new_rate,
    ;
    if r != 0 {
        // ko < top would give q < n - 1; and ko == top forces r == 0
        if ko == (n - 1) * new_rate {
            assert(((n - 1) * new_rate) % new_rate == 0) by {
                vstd::arithmetic::div_mod::lemma_mod_multiples_basic(n - 1, new_rate);
            }
        }
        assert(ko < (n - 1) * new_rate);
        assert(q + 1 <= n - 1) by (nonlinear_arith)
            requires
                new_rate * q + r == ko,
                0 <= r < new_rate,
                ko < (n - 1) * new_rate,
                new_rate >= 1,
                q >= 0,
        ;
    }
}

/// Linear interpolation stays between its two endpoints.
pub proof fn lemma_interp_between(y1: int, y2: int, num: int, den: int)
    requires
        0 <= num <= den,
        den >= 1,
    ensures
        y2 >= y1 ==> y1 <= y1 + scale_down(y2 - y1, num, den) <= y2,
        y2 < y1 ==> y2 <= y1 + scale_down(y2 - y1, num, den) <= y1,
{
    lemma_scale_shrinks(y2 - y1, num, den);
    let d = y2 - y1;
    if d >= 0 {
        assert(d * num >= 0) by (nonlinear_arith)
            requires
                d >= 0,
                num >= 0,
        ;
        assert((d * num) / den >= 0) by {
            vstd::arithmetic::div_mod::lemma_div_pos_is_pos(d * num, den);
        }
    } else {
        assert(-d * num >= 0) by (nonlinear_arith)
            requires
                d < 0,
                num >= 0,
        ;
        assert((-d * num) / den >= 0) by {
            vstd::arithmetic::div_mod::lemma_div_pos_is_pos(-d * num, den);
        }
    }
}

/// Resampling preserves any amplitude bound on the input samples.
pub proof fn lemma_resample_bounded(s: Seq<i64>, old_rate: int, new_rate: int, bound: int, k: int)
    requires
        old_rate >= 1,
        new_rate >= old_rate,
        forall|i: int| 0 <= i < s.len() ==> -bound <= #[trigger] s[i] <= bound,
        0 <= k < resample_len(s.len(), old_rate, new_rate),
    ensures
        -bound <= resample_at(s, old_rate, new_rate, k) <= bound,
{
    lemma_resample_bracket(s.len(), old_rate, new_rate, k);
    let q = (k * old_rate) / new_rate;
    let r = (k * old_rate) % new_rate;
    if r != 0 {
        vstd::arithmetic::div_mod::lemma_mod_division_less_than_divisor(k * old_rate, new_rate);
        lemma_interp_between(s[q] as int, s[q + 1] as int, r, new_rate);
    }
}

/// Resampling a buffer to its own rate reproduces it exactly.
pub proof fn lemma_resample_identity(s: Seq<i64>, rate: int)
    requires
        rate >= 1,
    ensures
        resample_len(s.len(), rate, rate) == s.len(),
        forall|k: int|
            0 <= k < s.len() ==> #[trigger] resample_at(s, rate, rate, k) == s[k],
{
    if s.len() > 0 {
        assert(((s.len() - 1) * rate) / rate == s.len() - 1) by {
            vstd::arithmetic::div_mod::lemma_div_by_multiple(s.len() - 1, rate);
        }
    }
    assert forall|k: int| 0 <= k < s.len() implies #[trigger] resample_at(s, rate, rate, k)
        == s[k] by {
        assert((k * rate) % rate == 0) by {
            vstd::arithmetic::div_mod::lemma_mod_multiples_basic(k, rate);
        }
        assert((k * rate) / rate == k) by {
            vstd::arithmetic::div_mod::lemma_div_by_multiple(k, rate);
        }
    }
}

/// Doubling the rate gives `2 * (n - 1) + 1` samples, and every output
/// sample at an original input time is that input sample, exactly.
pub proof fn lemma_resample_double(s: Seq<i64>, rate: int)
    requires
        rate >= 1,
        s.len() >= 1,
    ensures
        resample_len(s.len(), rate, 2 * rate) == 2 * (s.len() - 1) + 1,
        forall|j: int|
            0 <= j < s.len() ==> #[trigger] resample_at(s, rate, 2 * rate, 2 * j) == s[j],
{
    let n = s.len();
    assert(((n - 1) * (2 * rate)) == (2 * (n - 1)) * rate) by (nonlinear_arith);
    assert(((2 * (n - 1)) * rate) / rate == 2 * (n - 1)) by {
        vstd::arithmetic::div_mod::lemma_div_by_multiple(2 * (n - 1), rate);
    }
    assert forall|j: int| 0 <= j < n implies #[trigger] resample_at(s, rate, 2 * rate, 2 * j)
        == s[j] by {
        assert((2 * j) * rate == j * (2 * rate)) by (nonlinear_arith);
        assert((j * (2 * rate)) % (2 * rate) == 0) by {
            vstd::arithmetic::div_mod::lemma_mod_multiples_basic(j, 2 * rate);
        }
        assert((j * (2 * rate)) / (2 * rate) == j) by {
            vstd::arithmetic::div_mod::lemma_div_by_multiple(j, 2 * rate);
        }
    }
}

/// Converts a sample buffer recorded at `old_sample_rate` to
/// `new_sample_rate` by piecewise-linear interpolation.  Only upsampling
/// (or the identity) is supported; the output covers every output-rate
/// tick from time zero through the last input sample's time.
pub fn linerp_from_sample_rate(old_y: &Vec<i64>, old_sample_rate: u32, new_sample_rate: u32) -> (r:
    Vec<i64>)
    requires
        old_sample_rate >= 1,
        new_sample_rate >= old_sample_rate,
        forall|i: int|
            0 <= i < old_y@.len() ==> -SAMPLE_LIMIT <= #[trigger] old_y@[i] <= SAMPLE_LIMIT,
        resample_len(old_y@.len(), old_sample_rate as int, new_sample_rate as int) <= usize::MAX,
    ensures
        r@.len() == resample_len(old_y@.len(), old_sample_rate as int, new_sample_rate as int),
        forall|k: int|
            0 <= k < r@.len() ==> r@[k] == resample_at(
                old_y@,
                old_sample_rate as int,
                new_sample_rate as int,
                k,
            ),
{
    let orate = old_sample_rate as u128;
    let nrate = new_sample_rate as u128;
    let mut out: Vec<i64> = Vec::new();
    let n = old_y.len();
    if n == 0 {
        return out;
    }
    proof {
        assert((n - 1) * nrate >= 0) by (nonlinear_arith)
            requires
                n >= 1,
                nrate >= 1,
        ;
        assert((n - 1) * nrate <= (u64::MAX as int) * (u32::MAX as int)) by (nonlinear_arith)
            requires
                0 <= n - 1 <= u64::MAX,
                0 <= nrate <= u32::MAX,
        ;
        vstd::arithmetic::div_mod::lemma_div_pos_is_pos((n - 1) * nrate, orate as int);
    }
    let count_wide: u128 = ((n - 1) as u128) * nrate / orate + 1;
    let count: usize = count_wide as usize;
    assert(count == resample_len(n as nat, orate as int, nrate as int));
    let mut k: usize = 0;
    while k < count
        invariant
            0 <= k <= count,
            n == old_y@.len(),
            n >= 1,
            orate == old_sample_rate,
            nrate == new_sample_rate,
            1 <= orate <= nrate,
            count == resample_len(n as nat, orate as int, nrate as int),
            count <= usize::MAX,
            forall|i: int|
                0 <= i < old_y@.len() ==> -SAMPLE_LIMIT <= #[trigger] old_y@[i] <= SAMPLE_LIMIT,
            out@.len() == k,
            forall|j: int|
                0 <= j < k ==> out@[j] == resample_at(old_y@, orate as int, nrate as int, j),
        decreases count - k,
    {
        proof {
            assert(k * orate <= (u64::MAX as int) * (u32::MAX as int)) by (nonlinear_arith)
                requires
                    0 <= k <= u64::MAX,
                    0 <= orate <= u32::MAX,
            ;
            lemma_resample_bracket(n as nat, orate as int, nrate as int, k as int);
        }
        let ko: u128 = (k as u128) * orate;
        let q: u128 = ko / nrate;
        let rem: u128 = ko % nrate;
        let qi: usize = q as usize;
        if rem == 0 {
            out.push(old_y[qi]);
        } else {
            let y1 = old_y[qi];
            let y2 = old_y[qi + 1];
            proof {
                vstd::arithmetic::div_mod::lemma_mod_division_less_than_divisor(
                    ko as int,
                    nrate as int,
                );
                lemma_interp_between(y1 as int, y2 as int, rem as int, nrate as int);
                lemma_scale_shrinks(y2 - y1, rem as int, nrate as int);
            }
            if y2 >= y1 {
                proof {
                    assert((y2 - y1) * rem <= (u64::MAX as int) * (u32::MAX as int))
                        by (nonlinear_arith)
                        requires
                            0 <= y2 - y1 <= u64::MAX,
                            0 <= rem <= u32::MAX,
                    ;
                }
                let m: u128 = ((y2 - y1) as u128) * rem / nrate;
                assert(m == scale_down(y2 - y1, rem as int, nrate as int));
                out.push(y1 + (m as i64));
            } else {
                proof {
                    assert((y1 - y2) * rem <= (u64::MAX as int) * (u32::MAX as int))
                        by (nonlinear_arith)
                        requires
                            0 <= y1 - y2 <= u64::MAX,
                            0 <= rem <= u32::MAX,
                    ;
                }
                let m: u128 = ((y1 - y2) as u128) * rem / nrate;
                assert(-(m as int) == scale_down(y2 - y1, rem as int, nrate as int));
                out.push(y1 - (m as i64));
            }
        }
        k = k + 1;
    }
    out
}

} // verus!
