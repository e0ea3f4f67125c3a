//! Fixed-precision time arithmetic: marker positions in thousandths of a
//! sample, durations in milliseconds, and the clipped sample windows
//! derived from them. A window edge is the nearest whole sample to the
//! exact fractional position `marker - duration * rate`: the subtraction
//! happens first, in thousandths of a sample, and one rounding follows,
//! so sub-sample marker timing moves the window exactly as the arithmetic
//! says. Ties round toward positive infinity throughout the crate.

use vstd::prelude::*;

use vstd::arithmetic::div_mod::{
    lemma_div_is_ordered, lemma_div_multiples_vanish_fancy, lemma_div_pos_is_pos,
    lemma_fundamental_div_mod, lemma_fundamental_div_mod_converse, lemma_mod_bound,
};

verus! {

/// The nearest integer to the rational `num / den`, halves rounding toward
/// positive infinity.
pub open spec fn round_half_up(num: int, den: int) -> int {
    (2 * num + den) / (2 * den)
}

/// Shifting the numerator by a multiple of the denominator shifts the
/// quotient by the same amount.
pub proof fn lemma_div_shift(x: int, c: int, d: int)
    requires
        0 < d,
    ensures
        (x + c * d) / d == x / d + c,
{
    lemma_fundamental_div_mod(x, d);
    lemma_mod_bound(x, d);
    let q = x / d;
    let r = x % d;
    assert(x + c * d == d * (q + c) + r) by (nonlinear_arith)
        requires
            x == d * q + r,
    {};
    lemma_div_multiples_vanish_fancy(q + c, r, d);
}

/// A rounded quotient lies between any integer bounds on the exact
/// quotient.
pub proof fn lemma_round_half_up_between(num: int, den: int, lo: int, hi: int)
    requires
        0 < den,
        lo * den <= num,
        num <= hi * den,
    ensures
        lo <= round_half_up(num, den) <= hi,
{
    assert(2 * num + den <= (2 * den) * hi + den) by (nonlinear_arith)
        requires
            num <= hi * den,
    {};
    assert((2 * den) * lo <= 2 * num + den) by (nonlinear_arith)
        requires
            lo * den <= num,
            0 < den,
    {};
    lemma_div_multiples_vanish_fancy(hi, den, 2 * den);
    lemma_div_multiples_vanish_fancy(lo, 0, 2 * den);
    lemma_div_is_ordered(2 * num + den, (2 * den) * hi + den, 2 * den);
    lemma_div_is_ordered((2 * den) * lo + 0, 2 * num + den, 2 * den);
}

/// Rounding an exact multiple changes nothing.
pub proof fn lemma_round_half_up_multiple(x: int, d: int)
    requires
        0 < d,
    ensures
        round_half_up(x * d, d) == x,
{
    assert(2 * (x * d) + d == (2 * d) * x + d) by (nonlinear_arith) {};
    lemma_div_multiples_vanish_fancy(x, d, 2 * d);
}

/// Rounding of a count of thousandths to whole units: `round(p / 1000)`
/// with halves rounding up. For negative `p` the division floors, so ties
/// still round toward positive infinity.
pub open spec fn spec_round_milli(p: int) -> int {
    (p + 500) / 1000
}

/// The rounded count is negative exactly when the exact position lies
/// strictly below minus one half.
pub proof fn lemma_round_milli_sign(p: int)
    ensures
        p + 500 >= 0 ==> spec_round_milli(p) >= 0,
        p + 500 < 0 ==> spec_round_milli(p) < 0,
{
    if p + 500 >= 0 {
        lemma_div_pos_is_pos(p + 500, 1000);
    } else {
        lemma_fundamental_div_mod_converse(-1, 1000, -1, 999);
        lemma_div_is_ordered(p + 500, -1, 1000);
    }
}

/// A duration of `ms` milliseconds at `sfreq` Hz, as an exact count of
/// thousandths of a sample: `ms * sfreq` (no rounding happens here).
pub open spec fn spec_offset_milli(ms: int, sfreq: int) -> int {
    ms * sfreq
}

/// First sample of a cut reaching `a` thousandths of a sample back from a
/// marker at `p` thousandths of a sample: the nearest whole sample to the
/// exact difference, clipped to a recording of `n` samples.
pub open spec fn cut_lo(p: int, a: int, n: int) -> int {
    let s = spec_round_milli(p - a);
    if s < 0 {
        0
    } else if s <= n {
        s
    } else {
        n
    }
}

/// One past the last sample of a cut reaching `b` thousandths of a sample
/// forward from a marker at `p` thousandths of a sample, clipped to `n`.
pub open spec fn cut_hi(p: int, b: int, n: int) -> int {
    let e = spec_round_milli(p + b);
    if e <= n {
        e
    } else {
        n
    }
}

/// The whole sample nearest to a marker position given in thousandths of a
/// sample.
pub fn marker_index(pos: u64) -> (m: u64)
    ensures
        m as int == spec_round_milli(pos as int),
{
    let q: u128 = ((pos as u128) + 500) / 1000;
    proof {
        assert(q * 1000 <= (pos as u128) + 500 < q * 1000 + 1000) by {
            assert(q == ((pos as u128) + 500) / 1000);
        };
        assert(q <= u64::MAX as u128);
    }
    q as u64
}

/// A duration as an exact count of thousandths of a sample, wide enough
/// that no input overflows it.
pub fn offset_milli(ms: u64, sfreq: i32) -> (w: u128)
    requires
        0 < sfreq,
    ensures
        w as int == spec_offset_milli(ms as int, sfreq as int),
        w <= (u64::MAX as u128) * (i32::MAX as u128),
{
    proof {
        assert((ms as u128) * (sfreq as u128) <= (u64::MAX as u128) * (i32::MAX as u128)
            && (ms as u128) * (sfreq as u128) == (ms as int) * (sfreq as int)) by (nonlinear_arith)
            requires
                (ms as u128) == (ms as int),
                (sfreq as u128) == (sfreq as int),
                ms <= u64::MAX,
                0 < sfreq <= i32::MAX,
        {};
    }
    (ms as u128) * (sfreq as u128)
}

/// The clipped cut window `[lo, hi)` around a marker at `pos` thousandths
/// of a sample: `tmin_cut_ms` milliseconds back and `tmax_cut_ms`
/// milliseconds forward at `sfreq` Hz, each edge rounded once from the
/// exact fractional position and clipped to a recording of `n` samples.
pub fn cut_window(pos: u64, tmin_cut_ms: u64, tmax_cut_ms: u64, sfreq: i32, n: usize) -> (r: (
    usize,
    usize,
))
    requires
        0 < sfreq,
    ensures
        ({
            let a = spec_offset_milli(tmin_cut_ms as int, sfreq as int);
            let b = spec_offset_milli(tmax_cut_ms as int, sfreq as int);
            r.0 == cut_lo(pos as int, a, n as int) && r.1 == cut_hi(pos as int, b, n as int)
                && r.0 <= n && r.1 <= n
        }),
{
    let ghost aa = spec_offset_milli(tmin_cut_ms as int, sfreq as int);
    let ghost bb = spec_offset_milli(tmax_cut_ms as int, sfreq as int);
    let p: u128 = pos as u128;
    let a = offset_milli(tmin_cut_ms, sfreq);
    let b = offset_milli(tmax_cut_ms, sfreq);
    let lo: usize = if p + 500 >= a {
        let lo128: u128 = (p + 500 - a) / 1000;
        proof {
            assert(lo128 as int == spec_round_milli(pos as int - aa));
            lemma_round_milli_sign(pos as int - aa);
        }
        if lo128 <= (n as u128) {
            lo128 as usize
        } else {
            n
        }
    } else {
        proof {
            lemma_round_milli_sign(pos as int - aa);
        }
        0
    };
    let hi128: u128 = (p + b + 500) / 1000;
    proof {
        assert(hi128 as int == spec_round_milli(pos as int + bb));
    }
    let hi: usize = if hi128 <= (n as u128) {
        hi128 as usize
    } else {
        n
    };
    (lo, hi)
}

} // verus!
