//! Time-axis resampling. Both strategies derive the same target length,
//! `round(original_length * target_rate / original_rate)`, and both return
//! the new sample rate bundled with the new matrix, so the rate and the
//! data can never drift apart. The linear strategy is computed here
//! exactly; the Fourier strategy runs its per-channel kernel outside this
//! crate against a plan made here, and its results are assembled and
//! shape-checked here.

use vstd::prelude::*;

use vstd::arithmetic::div_mod::{
    lemma_div_is_ordered, lemma_div_multiples_vanish, lemma_div_multiples_vanish_fancy,
};

use crate::artifact::{hi16, lo16};
use crate::timing::{
    lemma_div_shift, lemma_round_half_up_between, lemma_round_half_up_multiple, round_half_up,
};
use crate::{EEGData, EEGError, EEGInfo};

verus! {

/// A freshly resampled recording: the matrix and the sample rate it now
/// has, bundled so a caller cannot keep one and forget the other.
#[derive(Debug)]
pub struct Resampled {
    pub data: EEGData,
    pub sfreq: usize,
}

/// The number of output samples: the recording's duration times the target
/// rate, rounded to the nearest sample.
pub open spec fn spec_target_len(n: int, sfreq: int, target: int) -> int {
    round_half_up(n * target, sfreq)
}

/// The amplitude of linear resampling at output index `j`: the fractional
/// source position is `j * n / m`; the result interpolates between the
/// samples at its floor and ceiling (the ceiling clamped to the last
/// sample) and rounds to the nearest fixed-point amplitude, halves toward
/// positive infinity.
pub open spec fn lin_sample(row: Seq<i16>, n: int, m: int, j: int) -> int {
    let pnum = j * n;
    let f = pnum / m;
    let rem = pnum % m;
    let c = if f + 1 < n {
        f + 1
    } else {
        n - 1
    };
    if f == c {
        row[f] as int
    } else {
        round_half_up((row[f] as int) * m + rem * ((row[c] as int) - (row[f] as int)), m)
    }
}

/// The target length, computed exactly.
pub fn resample_target_len(n: usize, sfreq: i32, target_sfreq: usize) -> (m: usize)
    requires
        0 < sfreq,
        (n as int) * (target_sfreq as int) <= u64::MAX as int,
        spec_target_len(n as int, sfreq as int, target_sfreq as int) <= usize::MAX as int,
    ensures
        m as int == spec_target_len(n as int, sfreq as int, target_sfreq as int),
{
    proof {
        assert((n as u128) * (target_sfreq as u128) == (n as int) * (target_sfreq as int))
            by (nonlinear_arith)
            requires
                (n as u128) == (n as int),
                (target_sfreq as u128) == (target_sfreq as int),
                0 <= (n as int) * (target_sfreq as int) <= u64::MAX as int,
        {};
    }
    let p: u128 = (n as u128) * (target_sfreq as u128);
    let m128: u128 = (2 * p + (sfreq as u128)) / (2 * (sfreq as u128));
    proof {
        assert(m128 as int == round_half_up((n as int) * (target_sfreq as int), sfreq as int));
    }
    m128 as usize
}

/// One output sample of the linear strategy, computed exactly in integer
/// arithmetic.
fn lin_sample_exec(row: &Vec<i16>, m: usize, j: usize) -> (v: i16)
    requires
        0 < row@.len(),
        0 < m,
        j < m,
    ensures
        v as int == lin_sample(row@, row@.len() as int, m as int, j as int),
{
    let n = row.len();
    proof {
        assert((j as u128) * (n as u128) <= (u64::MAX as u128) * (u64::MAX as u128))
            by (nonlinear_arith)
            requires
                (j as u128) <= u64::MAX as u128,
                (n as u128) <= u64::MAX as u128,
        {};
        assert((j as u128) * (n as u128) == (j as int) * (n as int)) by (nonlinear_arith)
            requires
                (j as u128) == (j as int),
                (n as u128) == (n as int),
        {};
    }
    let pnum: u128 = (j as u128) * (n as u128);
    let fq: u128 = pnum / (m as u128);
    let rem: u128 = pnum % (m as u128);
    proof {
        assert(pnum as int <= (m as int) * ((n as int) - 1) + ((m as int) - 1))
            by (nonlinear_arith)
            requires
                pnum as int == (j as int) * (n as int),
                (j as int) < (m as int),
                0 < (n as int),
                0 < (m as int),
        {};
        lemma_div_is_ordered(
            pnum as int,
            (m as int) * ((n as int) - 1) + ((m as int) - 1),
            m as int,
        );
        lemma_div_multiples_vanish_fancy((n as int) - 1, (m as int) - 1, m as int);
        assert(fq < (n as u128));
    }
    let f: usize = fq as usize;
    let c: usize = if f + 1 < n {
        f + 1
    } else {
        n - 1
    };
    if f == c {
        row[f]
    } else {
        let x0 = row[f];
        let x1 = row[c];
        let ghost lo: int = lo16(x0, x1);
        let ghost hi: int = hi16(x0, x1);
        proof {
            assert(-32768 * (m as i128) <= (x0 as i128) * (m as i128) <= 32768 * (m as i128)
                && (x0 as i128) * (m as i128) == (x0 as int) * (m as int)) by (nonlinear_arith)
                requires
                    (x0 as i128) == (x0 as int),
                    (m as i128) == (m as int),
                    -32768 <= (x0 as i128) <= 32767,
                    0 < (m as i128),
            {};
            assert(-65535 * (m as i128) <= (rem as i128) * ((x1 as i128) - (x0 as i128)) <= 65535
                * (m as i128) && (rem as i128) * ((x1 as i128) - (x0 as i128)) == (rem as int) * ((
            x1 as int) - (x0 as int))) by (nonlinear_arith)
                requires
                    (rem as i128) == (rem as int),
                    (x1 as i128) - (x0 as i128) == (x1 as int) - (x0 as int),
                    0 <= (rem as i128) <= (m as i128),
                    -65535 <= (x1 as i128) - (x0 as i128) <= 65535,
                    0 < (m as i128),
            {};
            assert((m as i128) <= u64::MAX as i128);
            assert(98303 * (m as i128) <= 98303 * (u64::MAX as i128)) by (nonlinear_arith)
                requires
                    0 < (m as i128) <= u64::MAX as i128,
            {};
        }
        let z0: u128 = (x0 as i64 + 32768) as u128;
        let z1: u128 = (x1 as i64 + 32768) as u128;
        let mm: u128 = m as u128;
        proof {
            assert(z0 * (mm - rem) + z1 * rem <= 65535 * mm) by (nonlinear_arith)
                requires
                    z0 <= 65535,
                    z1 <= 65535,
                    0 < mm <= u128::MAX / 4,
                    rem <= mm,
            {};
        }
        let znum: u128 = z0 * (mm - rem) + z1 * rem;
        let q: u128 = (2 * znum + mm) / (2 * mm);
        proof {
            let num = (x0 as int) * (m as int - rem as int) + (x1 as int) * (rem as int);
            assert(znum as int == num + 32768 * (m as int)) by (nonlinear_arith)
                requires
                    z0 as int == x0 as int + 32768,
                    z1 as int == x1 as int + 32768,
                    mm as int == m as int,
                    0 <= (rem as int) <= mm as int,
                    znum as int == (z0 * (mm - rem) + z1 * rem) as int,
                    num == (x0 as int) * (m as int - rem as int) + (x1 as int) * (rem as int),
            {};
            assert(2 * (znum as int) + m as int == (2 * num + m as int) + 32768 * (2 * (m as int)));
            lemma_div_shift(2 * num + m as int, 32768, 2 * (m as int));
            assert(q as int == round_half_up(num, m as int) + 32768);
            assert(lo * (m as int) <= num && num <= hi * (m as int)) by (nonlinear_arith)
                requires
                    num == (x0 as int) * (m as int - rem as int) + (x1 as int) * (rem as int),
                    0 <= (rem as int) <= (m as int),
                    lo <= x0 as int <= hi,
                    lo <= x1 as int <= hi,
            {};
            lemma_round_half_up_between(num, m as int, lo, hi);
            assert((x0 as int) * (m as int) + (rem as int) * ((x1 as int) - (x0 as int)) == num)
                by (nonlinear_arith)
                requires
                    num == (x0 as int) * (m as int - rem as int) + (x1 as int) * (rem as int),
            {};
        }
        let v: i64 = (q as i64) - 32768;
        v as i16
    }
}

/// Linear resampling: per channel, each of the `target_len` output samples
/// interpolates linearly between the two source samples around its
/// fractional source position, clamping at the array bound. Exact and
/// deterministic; the cheap reference strategy. An empty recording or an
/// empty target yields the degenerate empty recording, not an error.
#[verifier::loop_isolation(false)]
pub fn resample_eeg_linear(target_sfreq: usize, eeg_info: &EEGInfo, eeg_data: &EEGData) -> (r:
    Result<Resampled, EEGError>)
    requires
        eeg_info.wf(),
        eeg_data.wf(),
        eeg_data.samples() * (target_sfreq as int) <= u64::MAX as int,
        spec_target_len(eeg_data.samples(), eeg_info.sfreq as int, target_sfreq as int)
            <= usize::MAX as int,
    ensures
        ({
            let n = eeg_data.samples();
            let m = spec_target_len(n, eeg_info.sfreq as int, target_sfreq as int);
            match r {
                Ok(out) => {
                    &&& out.sfreq == target_sfreq
                    &&& out.data.wf()
                    &&& if eeg_data.is_empty_spec() || m == 0 {
                        out.data.channels() == 0
                    } else {
                        &&& out.data.channels() == eeg_data.channels()
                        &&& out.data.samples() == m
                        &&& forall|c: int, j: int|
                            0 <= c < out.data.channels() && 0 <= j < m
                                ==> out.data.rows()[c][j] as int == #[trigger] lin_sample(
                                eeg_data.rows()[c],
                                n,
                                m,
                                j,
                            )
                    }
                },
                Err(_) => false,
            }
        }),
{
    let ghost orig = eeg_data.rows();
    let ghost nn = eeg_data.samples();
    if eeg_data.is_empty() {
        return Ok(Resampled { data: EEGData { data: Vec::new() }, sfreq: target_sfreq });
    }
    let nch = eeg_data.num_channels();
    let n = eeg_data.num_samples();
    let m = resample_target_len(n, eeg_info.sfreq, target_sfreq);
    if m == 0 {
        return Ok(Resampled { data: EEGData { data: Vec::new() }, sfreq: target_sfreq });
    }
    let mut out: Vec<Vec<i16>> = Vec::new();
    let mut c: usize = 0;
    while c < nch
        invariant
            0 <= c <= nch,
            out@.len() == c,
            forall|cc: int| 0 <= cc < c ==> (#[trigger] out@[cc]@).len() == m,
            forall|cc: int, j: int|
                0 <= cc < c && 0 <= j < m ==> out@[cc]@[j] as int == #[trigger] lin_sample(
                    orig[cc],
                    n as int,
                    m as int,
                    j,
                ),
        decreases nch - c,
    {
        let src = &eeg_data.data[c];
        proof {
            assert(orig[c as int].len() == orig[0].len());
            assert(src@ == orig[c as int]);
        }
        let mut row: Vec<i16> = Vec::new();
        let mut j: usize = 0;
        while j < m
            invariant
                0 <= j <= m,
                row@.len() == j,
                src@.len() == n,
                forall|jj: int|
                    0 <= jj < j ==> row@[jj] as int == #[trigger] lin_sample(
                        src@,
                        n as int,
                        m as int,
                        jj,
                    ),
            decreases m - j,
        {
            let v = lin_sample_exec(src, m, j);
            row.push(v);
            j += 1;
        }
        out.push(row);
        c += 1;
    }
    let result = EEGData { data: out };
    proof {
        assert forall|cc: int| 0 <= cc < nch implies (#[trigger] result.rows()[cc]).len()
            == result.rows()[0].len() by {
            assert(result.rows()[cc] == result.data@[cc]@);
            assert(result.rows()[0] == result.data@[0]@);
        }
        assert(result.wf());
        assert(result.samples() == m);
    }
    Ok(Resampled { data: result, sfreq: target_sfreq })
}

/// One output sample of linear resampling lands exactly on a source
/// sample whenever the positions align: at output index `j` with
/// `j * n` a multiple of `m`, the result is the source sample there.
proof fn lemma_lin_sample_on_grid(row: Seq<i16>, n: int, m: int, j: int, f: int)
    requires
        0 < n == row.len(),
        0 < m,
        0 <= j,
        j * n == f * m,
        0 <= f < n,
    ensures
        lin_sample(row, n, m, j) == row[f] as int,
{
    assert(f * m == m * f) by (nonlinear_arith) {};
    lemma_div_multiples_vanish(f, m);
    vstd::arithmetic::div_mod::lemma_mod_multiples_basic(f, m);
    assert((j * n) / m == f);
    assert((j * n) % m == 0);
    let c = if f + 1 < n {
        f + 1
    } else {
        n - 1
    };
    if f != c {
        assert((row[f] as int) * m + 0 * ((row[c] as int) - (row[f] as int)) == (row[f] as int)
            * m) by (nonlinear_arith) {};
        lemma_round_half_up_multiple(row[f] as int, m);
    }
}

/// Round trip of the linear strategy: resampling a recording up by a
/// whole factor and then back down to its original length returns every
/// sample unchanged - on this path the approximate identity of
/// resampling is exact.
pub proof fn lemma_linear_round_trip(row: Seq<i16>, k: int, up: Seq<i16>, j: int)
    requires
        0 < row.len(),
        1 <= k,
        up.len() == k * row.len(),
        forall|i: int|
            0 <= i < up.len() ==> (#[trigger] up[i]) as int == lin_sample(
                row,
                row.len() as int,
                k * row.len(),
                i,
            ),
        0 <= j < row.len(),
    ensures
        lin_sample(up, k * row.len(), row.len() as int, j) == row[j] as int,
{
    let n = row.len() as int;
    let m = k * n;
    assert(0 < m && j * m == (j * k) * n && 0 <= j * k < m && (j * k) * n == j * m)
        by (nonlinear_arith)
        requires
            0 < n,
            1 <= k,
            0 <= j < n,
            m == k * n,
    {};
    lemma_lin_sample_on_grid(up, m, n, j, j * k);
    assert(up[j * k] as int == lin_sample(row, n, m, j * k));
    lemma_lin_sample_on_grid(row, n, m, j * k, j);
}

/// How many channels an assembled resampled matrix must have: none at all
/// when the source or the target is degenerate, one per source channel
/// otherwise.
pub open spec fn plan_channels(p: ResamplePlan) -> int {
    if p.n_channels == 0 || p.source_len == 0 || p.target_len == 0 {
        0
    } else {
        p.n_channels as int
    }
}

/// A resampling recipe for the Fourier kernel: the shape of the source,
/// the length every output channel must have, and the rate the result will
/// carry.
#[derive(Debug, Clone, Copy)]
pub struct ResamplePlan {
    pub n_channels: usize,
    pub source_len: usize,
    pub target_len: usize,
    pub target_sfreq: usize,
}

/// The recipe for spectrally resampling `eeg_data` to `target_sfreq`.
pub fn resample_plan(target_sfreq: usize, eeg_info: &EEGInfo, eeg_data: &EEGData) -> (p:
    ResamplePlan)
    requires
        eeg_info.wf(),
        eeg_data.wf(),
        eeg_data.samples() * (target_sfreq as int) <= u64::MAX as int,
        spec_target_len(eeg_data.samples(), eeg_info.sfreq as int, target_sfreq as int)
            <= usize::MAX as int,
    ensures
        p.n_channels == eeg_data.channels(),
        p.source_len == eeg_data.samples(),
        p.target_len == spec_target_len(
            eeg_data.samples(),
            eeg_info.sfreq as int,
            target_sfreq as int,
        ),
        p.target_sfreq == target_sfreq,
{
    let n = eeg_data.num_samples();
    ResamplePlan {
        n_channels: eeg_data.num_channels(),
        source_len: n,
        target_len: resample_target_len(n, eeg_info.sfreq, target_sfreq),
        target_sfreq,
    }
}

/// Order-preserving assembly of per-channel kernel results: exactly one
/// row per planned channel, every row exactly the planned target length,
/// bundled with the new rate; any other shape is a `ShapeError`, so a
/// dropped or ragged channel can never slip through.
pub fn resample_assemble(plan: &ResamplePlan, rows: Vec<Vec<i16>>) -> (r: Result<
    Resampled,
    EEGError,
>)
    ensures
        match r {
            Ok(out) => {
                &&& out.sfreq == plan.target_sfreq
                &&& out.data.wf()
                &&& out.data.data@ == rows@
                &&& rows@.len() == plan_channels(*plan)
                &&& forall|c: int|
                    0 <= c < rows@.len() ==> (#[trigger] rows@[c]@).len() == plan.target_len
            },
            Err(e) => {
                &&& e == EEGError::ShapeError
                &&& (rows@.len() != plan_channels(*plan) || exists|c: int|
                    0 <= c < rows@.len() && (#[trigger] rows@[c]@).len() != plan.target_len)
            },
        },
{
    let expected: usize = if plan.n_channels == 0 || plan.source_len == 0 || plan.target_len == 0 {
        0
    } else {
        plan.n_channels
    };
    match EEGData::from_rows_exact(expected, plan.target_len, rows) {
        Ok(d) => Ok(Resampled { data: d, sfreq: plan.target_sfreq }),
        Err(e) => Err(e),
    }
}

} // verus!
