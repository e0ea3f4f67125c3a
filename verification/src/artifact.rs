//! Stimulation-artifact removal: every marker defines a cut window around
//! the pulse, applied in marker-list order; the window is either zeroed or
//! bridged by a smooth curve anchored on the two samples just outside it.

use vstd::prelude::*;

use vstd::arithmetic::div_mod::{
    lemma_div_multiples_vanish_fancy, lemma_fundamental_div_mod, lemma_mod_bound,
};
use vstd::math::abs;

use crate::timing::{
    cut_hi, cut_lo, cut_window, lemma_div_shift, lemma_round_half_up_between, round_half_up,
    spec_offset_milli,
};
use crate::{EEGData, EEGError, EEGInfo, Markers};

verus! {

/// Whether sample `j` lies in the clipped cut window of a marker at `pos`
/// thousandths of a sample, reaching `a` thousandths of a sample back and
/// `b` forward in a recording of `n` samples.
pub open spec fn in_cut(pos: u64, j: int, a: int, b: int, n: int) -> bool {
    cut_lo(pos as int, a, n) <= j < cut_hi(pos as int, b, n)
}

/// Whether sample `j` lies in the cut window of any of the first `upto`
/// markers.
pub open spec fn covered(markers: Seq<u64>, upto: int, j: int, a: int, b: int, n: int) -> bool {
    exists|k: int| 0 <= k < upto && #[trigger] in_cut(markers[k], j, a, b, n)
}

/// The value sample `j` of channel `cc` takes once the cut windows of the
/// first `upto` markers are zeroed: zero inside any of those windows, the
/// original amplitude outside all of them.
pub open spec fn zeroed_cell(
    orig: Seq<Seq<i16>>,
    markers: Seq<u64>,
    upto: int,
    cc: int,
    j: int,
    a: int,
    b: int,
    n: int,
) -> i16 {
    if covered(markers, upto, j, a, b, n) {
        0i16
    } else {
        orig[cc][j]
    }
}

/// Zeroing mode: every sample of every channel that falls in some marker's
/// clipped cut window becomes zero; every other sample is unchanged. An
/// empty recording passes through as the empty matrix.
#[verifier::loop_isolation(false)]
pub fn remove_tms_pulse(
    tmin_cut_ms: u64,
    tmax_cut_ms: u64,
    markers: &Markers,
    eeg_info: &EEGInfo,
    eeg_data: &EEGData,
) -> (r: Result<EEGData, EEGError>)
    requires
        eeg_info.wf(),
        eeg_data.wf(),
    ensures
        ({
            let a = spec_offset_milli(tmin_cut_ms as int, eeg_info.sfreq as int);
            let b = spec_offset_milli(tmax_cut_ms as int, eeg_info.sfreq as int);
            let n = eeg_data.samples();
            match r {
                Ok(out) => {
                    &&& out.wf()
                    &&& if eeg_data.is_empty_spec() {
                        out.channels() == 0
                    } else {
                        &&& out.channels() == eeg_data.channels()
                        &&& out.samples() == eeg_data.samples()
                        &&& forall|c: int, j: int|
                            0 <= c < out.channels() && 0 <= j < n ==> out.rows()[c][j]
                                == #[trigger] zeroed_cell(
                                eeg_data.rows(),
                                markers.markers@,
                                markers.markers@.len() as int,
                                c,
                                j,
                                a,
                                b,
                                n,
                            )
                    }
                },
                Err(_) => false,
            }
        }),
{
    let ghost a = spec_offset_milli(tmin_cut_ms as int, eeg_info.sfreq as int);
    let ghost b = spec_offset_milli(tmax_cut_ms as int, eeg_info.sfreq as int);
    let ghost all = markers.markers@;
    let ghost orig = eeg_data.rows();
    if eeg_data.is_empty() {
        return Ok(EEGData { data: Vec::new() });
    }
    let nch = eeg_data.num_channels();
    let n = eeg_data.num_samples();
    let mut out: Vec<Vec<i16>> = Vec::new();
    let mut c: usize = 0;
    while c < nch
        invariant
            0 <= c <= nch,
            out@.len() == c,
            forall|cc: int| 0 <= cc < c ==> (#[trigger] out@[cc]@).len() == n,
            forall|cc: int, j: int|
                0 <= cc < c && 0 <= j < n ==> out@[cc]@[j] == #[trigger] zeroed_cell(
                    orig,
                    all,
                    all.len() as int,
                    cc,
                    j,
                    a,
                    b,
                    n as int,
                ),
        decreases nch - c,
    {
        let src = &eeg_data.data[c];
        proof {
            assert(orig[c as int].len() == orig[0].len());
            assert(src@ == orig[c as int]);
        }
        let mut row: Vec<i16> = Vec::new();
        let mut j: usize = 0;
        while j < n
            invariant
                0 <= j <= n,
                row@ == src@.subrange(0, j as int),
            decreases n - j,
        {
            row.push(src[j]);
            j += 1;
        }
        proof {
            assert(row@ =~= src@);
        }
        let mut k: usize = 0;
        while k < markers.markers.len()
            invariant
                0 <= k <= all.len(),
                row@.len() == n,
                forall|jj: int|
                    0 <= jj < n ==> row@[jj] == #[trigger] zeroed_cell(
                        orig,
                        all,
                        k as int,
                        c as int,
                        jj,
                        a,
                        b,
                        n as int,
                    ),
            decreases all.len() - k,
        {
            let (s, e) = cut_window(markers.markers[k], tmin_cut_ms, tmax_cut_ms, eeg_info.sfreq, n);
            let mut j: usize = s;
            while j < e
                invariant
                    s <= j <= e,
                    row@.len() == n,
                    forall|jj: int|
                        0 <= jj < n && !(s <= jj < j) ==> row@[jj] == #[trigger] zeroed_cell(
                            orig,
                            all,
                            k as int,
                            c as int,
                            jj,
                            a,
                            b,
                            n as int,
                        ),
                    forall|jj: int| s <= jj < j ==> row@[jj] == 0i16,
                decreases e - j,
            {
                row.set(j, 0);
                j += 1;
            }
            proof {
                assert forall|jj: int| 0 <= jj < n implies row@[jj] == zeroed_cell(
                    orig,
                    all,
                    (k + 1) as int,
                    c as int,
                    jj,
                    a,
                    b,
                    n as int,
                ) by {
                    if s <= jj < e {
                        assert(in_cut(all[k as int], jj, a, b, n as int));
                        assert(covered(all, (k + 1) as int, jj, a, b, n as int));
                    } else {
                        assert(row@[jj] == zeroed_cell(orig, all, k as int, c as int, jj, a, b, n as int));
                        if covered(all, (k + 1) as int, jj, a, b, n as int) {
                            let kk = choose|kk: int|
                                0 <= kk < k + 1 && #[trigger] in_cut(all[kk], jj, a, b, n as int);
                            assert(kk < k);
                            assert(covered(all, k as int, jj, a, b, n as int));
                        } else {
                            if covered(all, k as int, jj, a, b, n as int) {
                                let kk = choose|kk: int|
                                    0 <= kk < k && #[trigger] in_cut(all[kk], jj, a, b, n as int);
                                assert(in_cut(all[kk], jj, a, b, n as int));
                            }
                        }
                    }
                }
            }
            k += 1;
        }
        out.push(row);
        proof {
            assert forall|cc: int, j: int| 0 <= cc < c + 1 && 0 <= j < n implies out@[cc]@[j]
                == zeroed_cell(orig, all, all.len() as int, cc, j, a, b, n as int) by {
                if cc == c {
                    assert(out@[cc]@ == row@);
                    assert(row@[j] == zeroed_cell(orig, all, all.len() as int, cc, j, a, b, n as int));
                } else {
                    assert(out@[cc]@[j] == zeroed_cell(orig, all, all.len() as int, cc, j, a, b, n as int));
                }
            }
        }
        c += 1;
    }
    let result = EEGData { data: out };
    proof {
        assert(result.channels() == nch);
        assert forall|cc: int, j: int| 0 <= cc < nch && 0 <= j < n implies result.rows()[cc][j]
            == zeroed_cell(orig, all, all.len() as int, cc, j, a, b, n as int) by {
            assert(result.rows()[cc] == out@[cc]@);
            assert(out@[cc]@[j] == zeroed_cell(orig, all, all.len() as int, cc, j, a, b, n as int));
        }
        assert forall|cc: int| 0 <= cc < nch implies (#[trigger] result.rows()[cc]).len()
            == result.rows()[0].len() by {
            assert(result.rows()[cc] == out@[cc]@);
        }
        assert(result.wf());
        assert(result.samples() == n);
    }
    Ok(result)
}

/// The smaller of two amplitudes, as a mathematical integer.
pub open spec fn lo16(x: i16, y: i16) -> int {
    if x <= y {
        x as int
    } else {
        y as int
    }
}

/// The larger of two amplitudes, as a mathematical integer.
pub open spec fn hi16(x: i16, y: i16) -> int {
    if x <= y {
        y as int
    } else {
        x as int
    }
}

/// The smooth bridge across a gap: its anchors are `y0`, one sample before
/// the gap, and `y1`, one sample after it, `d` steps apart; position `t`
/// between them (`0 <= t <= d`) takes the nearest integer to
/// `y0 + (y1 - y0) * t / d`, halves rounding toward positive infinity
/// like every rounding in this crate.
pub open spec fn bridge_at(y0: i16, y1: i16, d: int, t: int) -> int {
    round_half_up(y0 * (d - t) + y1 * t, d)
}

/// The bridge never leaves the closed range spanned by its two anchor
/// amplitudes; in particular it always fits the fixed-point width.
pub proof fn lemma_bridge_stays_between(y0: i16, y1: i16, d: int, t: int)
    requires
        0 < d,
        0 <= t <= d,
    ensures
        lo16(y0, y1) <= bridge_at(y0, y1, d, t) <= hi16(y0, y1),
{
    let num = y0 * (d - t) + y1 * t;
    let lo = lo16(y0, y1);
    let hi = hi16(y0, y1);
    assert(lo * d <= num && num <= hi * d) by (nonlinear_arith)
        requires
            0 <= t <= d,
            num == y0 * (d - t) + y1 * t,
            lo <= y0 as int <= hi,
            lo <= y1 as int <= hi,
    {};
    lemma_round_half_up_between(num, d, lo, hi);
}

/// The bridge meets its two anchors exactly.
pub proof fn lemma_bridge_hits_anchors(y0: i16, y1: i16, d: int)
    requires
        0 < d,
    ensures
        bridge_at(y0, y1, d, 0) == y0 as int,
        bridge_at(y0, y1, d, d) == y1 as int,
{
    assert(2 * (y0 * (d - 0) + y1 * 0) + d == (2 * d) * (y0 as int) + d) by (nonlinear_arith) {};
    assert(2 * (y0 * (d - d) + y1 * d) + d == (2 * d) * (y1 as int) + d) by (nonlinear_arith) {};
    lemma_div_multiples_vanish_fancy(y0 as int, d, 2 * d);
    lemma_div_multiples_vanish_fancy(y1 as int, d, 2 * d);
}

/// Consecutive bridge samples differ by at most the exact per-step slope
/// plus one rounding unit: the bridge has a bounded first difference,
/// `|bridge(t+1) - bridge(t)| <= |y1 - y0| / d + 1` scaled by `d`.
pub proof fn lemma_bridge_small_steps(y0: i16, y1: i16, d: int, t: int)
    requires
        0 < d,
        0 <= t < d,
    ensures
        abs(bridge_at(y0, y1, d, t + 1) - bridge_at(y0, y1, d, t)) * d <= abs(
            y1 as int - y0 as int,
        ) + d,
{
    let delta = y1 as int - y0 as int;
    let n1 = y0 * (d - t) + y1 * t;
    let n2 = y0 * (d - (t + 1)) + y1 * (t + 1);
    assert(n2 == n1 + delta) by (nonlinear_arith)
        requires
            n1 == y0 * (d - t) + y1 * t,
            n2 == y0 * (d - (t + 1)) + y1 * (t + 1),
            delta == y1 as int - y0 as int,
    {};
    let x1 = 2 * n1 + d;
    let x2 = 2 * n2 + d;
    lemma_fundamental_div_mod(x1, 2 * d);
    lemma_mod_bound(x1, 2 * d);
    lemma_fundamental_div_mod(x2, 2 * d);
    lemma_mod_bound(x2, 2 * d);
    let q1 = x1 / (2 * d);
    let r1 = x1 % (2 * d);
    let q2 = x2 / (2 * d);
    let r2 = x2 % (2 * d);
    assert(abs(q2 - q1) * d <= abs(delta) + d) by (nonlinear_arith)
        requires
            0 < d,
            x1 == (2 * d) * q1 + r1,
            x2 == (2 * d) * q2 + r2,
            0 <= r1 < 2 * d,
            0 <= r2 < 2 * d,
            x2 - x1 == 2 * delta,
    {};
}

/// One interpolation cut on one channel: nothing happens when the clipped
/// window is empty; a window touching either recording boundary is zeroed
/// (no anchor sample exists there); otherwise the interior of the window is
/// replaced by the bridge anchored on the samples just outside it.
pub open spec fn interp_cut_row(row: Seq<i16>, pos: u64, a: int, b: int) -> Seq<i16> {
    let n = row.len() as int;
    let s = cut_lo(pos as int, a, n);
    let e = cut_hi(pos as int, b, n);
    if s >= e {
        row
    } else if s == 0 || e == n {
        Seq::new(row.len(), |j: int| if s <= j < e {
            0i16
        } else {
            row[j]
        })
    } else {
        Seq::new(row.len(), |j: int| if s <= j < e {
            (bridge_at(row[s - 1], row[e], e - s + 1, j - s + 1) as i16)
        } else {
            row[j]
        })
    }
}

/// The first `upto` markers' interpolation cuts applied in list order: a
/// later marker's cut sees the row as earlier cuts left it.
pub open spec fn interp_row_fold(row: Seq<i16>, markers: Seq<u64>, upto: int, a: int, b: int) -> Seq<
    i16,
>
    decreases upto,
{
    if upto <= 0 {
        row
    } else {
        interp_cut_row(interp_row_fold(row, markers, upto - 1, a, b), markers[upto - 1], a, b)
    }
}

/// Interpolation cuts never change the row length.
pub proof fn lemma_interp_fold_len(row: Seq<i16>, markers: Seq<u64>, upto: int, a: int, b: int)
    ensures
        interp_row_fold(row, markers, upto, a, b).len() == row.len(),
    decreases upto,
{
    if upto > 0 {
        lemma_interp_fold_len(row, markers, upto - 1, a, b);
    }
}

/// Samples outside the clipped cut window - in particular the two anchor
/// samples immediately outside the gap - are unchanged by an interpolation
/// cut.
pub proof fn lemma_interp_keeps_boundary(row: Seq<i16>, pos: u64, a: int, b: int)
    ensures
        interp_cut_row(row, pos, a, b).len() == row.len(),
        forall|j: int|
            ({
                let n = row.len() as int;
                let s = cut_lo(pos as int, a, n);
                let e = cut_hi(pos as int, b, n);
                0 <= j < n && !(s <= j < e)
            }) ==> interp_cut_row(row, pos, a, b)[j] == row[j],
{
}

/// A sample outside every marker's clipped cut window is unchanged by the
/// whole sequence of interpolation cuts. In particular, when no cut
/// window reaches another marker's anchor samples, every marker's two
/// anchors - the samples just outside its gap - keep their original
/// values through the whole pass.
pub proof fn lemma_interp_fold_outside(
    row: Seq<i16>,
    markers: Seq<u64>,
    upto: int,
    a: int,
    b: int,
    j: int,
)
    requires
        0 <= j < row.len(),
        forall|k: int| 0 <= k < upto ==> !in_cut(#[trigger] markers[k], j, a, b, row.len() as int),
    ensures
        interp_row_fold(row, markers, upto, a, b)[j] == row[j],
    decreases upto,
{
    if upto > 0 {
        lemma_interp_fold_outside(row, markers, upto - 1, a, b, j);
        lemma_interp_fold_len(row, markers, upto - 1, a, b);
        let prev = interp_row_fold(row, markers, upto - 1, a, b);
        lemma_interp_keeps_boundary(prev, markers[upto - 1], a, b);
        assert(!in_cut(markers[upto - 1], j, a, b, row.len() as int));
        assert(interp_cut_row(prev, markers[upto - 1], a, b)[j] == prev[j]);
    }
}

/// The amplitude the bridge takes at interior position `t`, computed
/// exactly in integer arithmetic.
fn bridge_sample(y0: i16, y1: i16, d: usize, t: usize) -> (v: i16)
    requires
        1 <= t < d,
    ensures
        v as int == bridge_at(y0, y1, d as int, t as int),
        lo16(y0, y1) <= v as int <= hi16(y0, y1),
{
    proof {
        lemma_bridge_stays_between(y0, y1, d as int, t as int);
    }
    let z0: u128 = (y0 as i64 + 32768) as u128;
    let z1: u128 = (y1 as i64 + 32768) as u128;
    let dd: u128 = d as u128;
    let tt: u128 = t as u128;
    proof {
        assert(z0 * (dd - tt) + z1 * tt <= 65535 * dd) by (nonlinear_arith)
            requires
                z0 <= 65535,
                z1 <= 65535,
                0 < dd <= u128::MAX / 4,
                tt <= dd,
        {};
    }
    let znum: u128 = z0 * (dd - tt) + z1 * tt;
    let q: u128 = (2 * znum + dd) / (2 * dd);
    proof {
        let num = (y0 as int) * (d as int - t as int) + (y1 as int) * (t as int);
        assert(znum as int == num + 32768 * (d as int)) by (nonlinear_arith)
            requires
                z0 as int == y0 as int + 32768,
                z1 as int == y1 as int + 32768,
                dd as int == d as int,
                tt as int == t as int,
                0 <= tt <= dd,
                znum as int == (z0 * (dd - tt) + z1 * tt) as int,
                num == (y0 as int) * (d as int - t as int) + (y1 as int) * (t as int),
        {};
        assert(2 * (znum as int) + d as int == (2 * num + d as int) + 32768 * (2 * d as int));
        lemma_div_shift(2 * num + d as int, 32768, 2 * (d as int));
        assert(q as int == round_half_up(num, d as int) + 32768);
        assert(lo16(y0, y1) + 32768 <= q as int <= hi16(y0, y1) + 32768);
    }
    let v: i64 = (q as i64) - 32768;
    v as i16
}

/// Interpolation mode: each marker's clipped cut window is bridged by the
/// smooth curve through the two samples immediately outside it, rounded
/// back to fixed point; a window touching either recording boundary falls
/// back to zeroing. Cuts are applied in marker-list order, each seeing the
/// data as earlier cuts left it. An empty recording passes through as the
/// empty matrix.
#[verifier::loop_isolation(false)]
pub fn rm_interp_tms_pulse(
    tmin_cut_ms: u64,
    tmax_cut_ms: u64,
    markers: &Markers,
    eeg_info: &EEGInfo,
    eeg_data: &EEGData,
) -> (r: Result<EEGData, EEGError>)
    requires
        eeg_info.wf(),
        eeg_data.wf(),
    ensures
        ({
            let a = spec_offset_milli(tmin_cut_ms as int, eeg_info.sfreq as int);
            let b = spec_offset_milli(tmax_cut_ms as int, eeg_info.sfreq as int);
            let n = eeg_data.samples();
            match r {
                Ok(out) => {
                    &&& out.wf()
                    &&& if eeg_data.is_empty_spec() {
                        out.channels() == 0
                    } else {
                        &&& out.channels() == eeg_data.channels()
                        &&& out.samples() == n
                        &&& forall|c: int|
                            0 <= c < out.channels() ==> out.rows()[c] == #[trigger] interp_row_fold(
                                eeg_data.rows()[c],
                                markers.markers@,
                                markers.markers@.len() as int,
                                a,
                                b,
                            )
                    }
                },
                Err(_) => false,
            }
        }),
{
    let ghost a = spec_offset_milli(tmin_cut_ms as int, eeg_info.sfreq as int);
    let ghost b = spec_offset_milli(tmax_cut_ms as int, eeg_info.sfreq as int);
    let ghost all = markers.markers@;
    let ghost orig = eeg_data.rows();
    if eeg_data.is_empty() {
        return Ok(EEGData { data: Vec::new() });
    }
    let nch = eeg_data.num_channels();
    let n = eeg_data.num_samples();
    let mut out: Vec<Vec<i16>> = Vec::new();
    let mut c: usize = 0;
    while c < nch
        invariant
            0 <= c <= nch,
            out@.len() == c,
            forall|cc: int| 0 <= cc < c ==> (#[trigger] out@[cc]@).len() == n,
            forall|cc: int|
                0 <= cc < c ==> out@[cc]@ == #[trigger] interp_row_fold(
                    orig[cc],
                    all,
                    all.len() as int,
                    a,
                    b,
                ),
        decreases nch - c,
    {
        let src = &eeg_data.data[c];
        proof {
            assert(orig[c as int].len() == orig[0].len());
            assert(src@ == orig[c as int]);
        }
        let mut row: Vec<i16> = Vec::new();
        let mut j: usize = 0;
        while j < n
            invariant
                0 <= j <= n,
                row@ == src@.subrange(0, j as int),
            decreases n - j,
        {
            row.push(src[j]);
            j += 1;
        }
        proof {
            assert(row@ =~= src@);
        }
        let mut k: usize = 0;
        while k < markers.markers.len()
            invariant
                0 <= k <= all.len(),
                row@.len() == n,
                row@ == interp_row_fold(src@, all, k as int, a, b),
            decreases all.len() - k,
        {
            let ghost before = row@;
            let (s, e) = cut_window(markers.markers[k], tmin_cut_ms, tmax_cut_ms, eeg_info.sfreq, n);
            if s < e {
                if s == 0 || e == n {
                    let mut j: usize = s;
                    while j < e
                        invariant
                            s <= j <= e,
                            row@.len() == n,
                            forall|jj: int| 0 <= jj < n && !(s <= jj < j) ==> row@[jj] == before[jj],
                            forall|jj: int| s <= jj < j ==> row@[jj] == 0i16,
                        decreases e - j,
                    {
                        row.set(j, 0);
                        j += 1;
                    }
                    proof {
                        assert(row@ =~= interp_cut_row(before, all[k as int], a, b));
                    }
                } else {
                    let gap = e - s;
                    if gap == 0 {
                        // The curve fit is checked, never assumed: a gap of
                        // no sample cannot anchor a bridge. The guard above
                        // makes this branch unreachable.
                        return Err(EEGError::NumericalError);
                    }
                    let y0 = row[s - 1];
                    let y1 = row[e];
                    let mut i: usize = 0;
                    while i < gap
                        invariant
                            0 <= i <= gap,
                            row@.len() == n,
                            forall|jj: int|
                                0 <= jj < n && !(s <= jj < s + i) ==> row@[jj] == before[jj],
                            forall|jj: int|
                                s <= jj < s + i ==> row@[jj] as int == bridge_at(
                                    y0,
                                    y1,
                                    gap + 1,
                                    jj - s + 1,
                                ),
                        decreases gap - i,
                    {
                        let v = bridge_sample(y0, y1, gap + 1, i + 1);
                        row.set(s + i, v);
                        i += 1;
                    }
                    proof {
                        assert forall|jj: int| 0 <= jj < n implies row@[jj] == interp_cut_row(
                            before,
                            all[k as int],
                            a,
                            b,
                        )[jj] by {
                            if s <= jj < e {
                                lemma_bridge_stays_between(y0, y1, gap + 1, jj - s + 1);
                            }
                        }
                        assert(row@ =~= interp_cut_row(before, all[k as int], a, b));
                    }
                }
            } else {
                proof {
                    assert(row@ == interp_cut_row(before, all[k as int], a, b));
                }
            }
            k += 1;
        }
        let ghost prev = out@;
        out.push(row);
        proof {
            lemma_interp_fold_len(src@, all, all.len() as int, a, b);
            assert forall|cc: int| 0 <= cc < c + 1 implies out@[cc]@ == interp_row_fold(
                orig[cc],
                all,
                all.len() as int,
                a,
                b,
            ) by {
                if cc == c {
                    assert(out@[cc]@ == row@);
                } else {
                    assert(out@[cc] == prev[cc]);
                }
            }
            assert forall|cc: int| 0 <= cc < c + 1 implies (#[trigger] out@[cc]@).len() == n by {
                if cc == c {
                } else {
                    assert(prev[cc]@.len() == n);
                }
            }
        }
        c += 1;
    }
    let result = EEGData { data: out };
    proof {
        assert(result.channels() == nch);
        assert forall|cc: int| 0 <= cc < nch implies result.rows()[cc] == interp_row_fold(
            orig[cc],
            all,
            all.len() as int,
            a,
            b,
        ) by {
            assert(result.rows()[cc] == out@[cc]@);
        }
        assert forall|cc: int| 0 <= cc < nch implies (#[trigger] result.rows()[cc]).len()
            == result.rows()[0].len() by {
            assert(result.rows()[cc] == out@[cc]@);
            assert(result.rows()[0] == out@[0]@);
        }
        assert(result.wf());
        assert(result.samples() == n);
    }
    Ok(result)
}

} // verus!
