//! Event-locked epoch extraction and averaging. Each marker proposes a
//! window around its sample position; a window that the recording boundary
//! would truncate is rejected outright, never clipped, so that all emitted
//! epochs share one rectangular shape. The evoked response is the exact
//! per-offset amplitude sum across epochs with the epoch count as shared
//! denominator.

use vstd::prelude::*;

use crate::timing::{lemma_round_milli_sign, offset_milli, spec_offset_milli, spec_round_milli};
use crate::{cuboid, rect, row_views, tensor_views, EEGData, EEGError, EEGInfo, EpochsData,
    EvokedData, Markers};

verus! {

/// The one window length all epochs share: the whole extent `a + b`
/// thousandths of a sample, rounded once to whole samples.
pub open spec fn epoch_len(a: int, b: int) -> int {
    spec_round_milli(a + b)
}

/// The first sample of the window around a marker at `pos` thousandths of
/// a sample: the nearest whole sample to the exact fractional position
/// `a` thousandths of a sample before the marker.
pub open spec fn epoch_start(pos: u64, a: int) -> int {
    spec_round_milli(pos - a)
}

/// Whether the full window - `epoch_len(a, b)` samples from
/// `epoch_start(pos, a)` - fits inside a recording of `n` samples and
/// spans at least one sample.
pub open spec fn epoch_ok(pos: u64, a: int, b: int, n: int) -> bool {
    let s = epoch_start(pos, a);
    0 <= s && s + epoch_len(a, b) <= n && 0 < epoch_len(a, b)
}

/// The full-length window cut from every channel around one accepted
/// marker.
pub open spec fn epoch_of(rows: Seq<Seq<i16>>, pos: u64, a: int, b: int) -> Seq<Seq<i16>> {
    let s = epoch_start(pos, a);
    Seq::new(rows.len(), |c: int| rows[c].subrange(s, s + epoch_len(a, b)))
}

/// The epochs of the first `upto` markers, in marker order, keeping only
/// markers whose full window fits the recording.
pub open spec fn epochs_prefix(
    rows: Seq<Seq<i16>>,
    markers: Seq<u64>,
    upto: int,
    a: int,
    b: int,
    n: int,
) -> Seq<Seq<Seq<i16>>>
    decreases upto,
{
    if upto <= 0 {
        Seq::empty()
    } else {
        let prev = epochs_prefix(rows, markers, upto - 1, a, b, n);
        if epoch_ok(markers[upto - 1], a, b, n) {
            prev.push(epoch_of(rows, markers[upto - 1], a, b))
        } else {
            prev
        }
    }
}

/// Every epoch that extraction emits has one row per channel and exactly
/// the shared window length `epoch_len(a, b)` of samples; the tensor is a
/// cuboid, and no markers give no epochs.
pub proof fn lemma_epochs_shape(
    rows: Seq<Seq<i16>>,
    markers: Seq<u64>,
    upto: int,
    a: int,
    b: int,
    n: int,
)
    requires
        rect(rows),
        rows.len() > 0 ==> rows[0].len() == n,
        0 <= a,
        0 <= b,
    ensures
        ({
            let t = epochs_prefix(rows, markers, upto, a, b, n);
            &&& forall|e: int|
                0 <= e < t.len() ==> (#[trigger] t[e]).len() == rows.len() && forall|c: int|
                    0 <= c < t[e].len() ==> (#[trigger] t[e][c]).len() == epoch_len(a, b)
            &&& cuboid(t)
            &&& upto <= 0 ==> t.len() == 0
        }),
    decreases upto,
{
    if upto > 0 {
        lemma_epochs_shape(rows, markers, upto - 1, a, b, n);
    }
}

/// The epoch tensor of a recording - and with it the evoked response
/// averaged from it - has one row per recording channel and one column per
/// window sample (`epoch_len(a, b)` samples); an empty marker list yields
/// no epochs at all, hence the empty `(0, 0)` average.
pub proof fn lemma_epoch_evoked_shape(
    rows: Seq<Seq<i16>>,
    markers: Seq<u64>,
    a: int,
    b: int,
    n: int,
)
    requires
        rect(rows),
        rows.len() > 0 ==> rows[0].len() == n,
        0 <= a,
        0 <= b,
    ensures
        ({
            let t = epochs_prefix(rows, markers, markers.len() as int, a, b, n);
            &&& cuboid(t)
            &&& t.len() > 0 ==> t[0].len() == rows.len()
            &&& t.len() > 0 && rows.len() > 0 ==> t[0][0].len() == epoch_len(a, b)
            &&& markers.len() == 0 ==> t.len() == 0
        }),
{
    lemma_epochs_shape(rows, markers, markers.len() as int, a, b, n);
}

/// Epoch extraction. For each marker in input order, the window reaching
/// `tmin_ms` milliseconds back and `tmax_ms` milliseconds forward from the
/// marker's rounded sample position is cut from every channel; a marker
/// whose full window does not fit the recording is rejected, so every kept
/// epoch has the same shape. An empty recording, or one in which no marker
/// fits, yields the empty tensor.
#[verifier::loop_isolation(false)]
pub fn epoch_eeg(
    tmin_ms: u64,
    tmax_ms: u64,
    eeg_info: &EEGInfo,
    eeg_data: &EEGData,
    markers: &Markers,
) -> (r: Result<Vec<Vec<Vec<i16>>>, EEGError>)
    requires
        eeg_info.wf(),
        eeg_data.wf(),
    ensures
        ({
            let a = spec_offset_milli(tmin_ms as int, eeg_info.sfreq as int);
            let b = spec_offset_milli(tmax_ms as int, eeg_info.sfreq as int);
            let n = eeg_data.samples();
            match r {
                Ok(out) => {
                    if eeg_data.is_empty_spec() {
                        out@.len() == 0
                    } else {
                        tensor_views(out@) == epochs_prefix(
                            eeg_data.rows(),
                            markers.markers@,
                            markers.markers@.len() as int,
                            a,
                            b,
                            n,
                        )
                    }
                },
                Err(_) => false,
            }
        }),
{
    let ghost a = spec_offset_milli(tmin_ms as int, eeg_info.sfreq as int);
    let ghost b = spec_offset_milli(tmax_ms as int, eeg_info.sfreq as int);
    let ghost all = markers.markers@;
    let ghost orig = eeg_data.rows();
    if eeg_data.is_empty() {
        return Ok(Vec::new());
    }
    let nch = eeg_data.num_channels();
    let n = eeg_data.num_samples();
    let aw = offset_milli(tmin_ms, eeg_info.sfreq);
    let bw = offset_milli(tmax_ms, eeg_info.sfreq);
    let wlen128: u128 = (aw + bw + 500) / 1000;
    proof {
        assert(wlen128 as int == epoch_len(a, b));
    }
    let mut epochs: Vec<Vec<Vec<i16>>> = Vec::new();
    let mut k: usize = 0;
    while k < markers.markers.len()
        invariant
            0 <= k <= all.len(),
            tensor_views(epochs@) == epochs_prefix(orig, all, k as int, a, b, n as int),
        decreases all.len() - k,
    {
        let p: u128 = markers.markers[k] as u128;
        let accepted: Option<u128> = if p + 500 >= aw {
            let start128: u128 = (p + 500 - aw) / 1000;
            proof {
                assert(start128 as int == epoch_start(all[k as int], a));
            }
            if start128 + wlen128 <= (n as u128) && 0 < wlen128 {
                Some(start128)
            } else {
                None
            }
        } else {
            proof {
                lemma_round_milli_sign(all[k as int] - a);
            }
            None
        };
        if let Some(start128) = accepted {
            proof {
                assert(epoch_ok(all[k as int], a, b, n as int));
            }
            let s: usize = start128 as usize;
            let e: usize = (start128 + wlen128) as usize;
            let mut current_epoch: Vec<Vec<i16>> = Vec::new();
            let mut c: usize = 0;
            while c < nch
                invariant
                    0 <= c <= nch,
                    s <= e <= n,
                    s as int == epoch_start(all[k as int], a),
                    e as int == epoch_start(all[k as int], a) + epoch_len(a, b),
                    current_epoch@.len() == c,
                    forall|cc: int|
                        0 <= cc < c ==> (#[trigger] current_epoch@[cc]@) == orig[cc].subrange(
                            s as int,
                            e as int,
                        ),
                decreases nch - c,
            {
                let src = &eeg_data.data[c];
                proof {
                    assert(orig[c as int].len() == orig[0].len());
                    assert(src@ == orig[c as int]);
                }
                let mut row: Vec<i16> = Vec::new();
                let mut j: usize = s;
                while j < e
                    invariant
                        s <= j <= e,
                        row@ == src@.subrange(s as int, j as int),
                    decreases e - j,
                {
                    row.push(src[j]);
                    j += 1;
                }
                proof {
                    assert(row@ =~= src@.subrange(s as int, e as int));
                }
                current_epoch.push(row);
                c += 1;
            }
            let ghost prev_t = epochs@;
            epochs.push(current_epoch);
            proof {
                assert(epoch_ok(all[k as int], a, b, n as int));
                assert(row_views(current_epoch@) =~= epoch_of(orig, all[k as int], a, b));
                assert(tensor_views(epochs@) =~= epochs_prefix(
                    orig,
                    all,
                    (k + 1) as int,
                    a,
                    b,
                    n as int,
                )) by {
                    assert forall|e: int| 0 <= e < prev_t.len() + 1 implies tensor_views(epochs@)[e]
                        == epochs_prefix(orig, all, (k + 1) as int, a, b, n as int)[e] by {
                        if e < prev_t.len() {
                            assert(tensor_views(epochs@)[e] == tensor_views(prev_t)[e]);
                        } else {
                            assert(tensor_views(epochs@)[e] == row_views(current_epoch@));
                        }
                    }
                }
            }
        } else {
            proof {
                assert(!epoch_ok(all[k as int], a, b, n as int));
            }
        }
        k += 1;
    }
    Ok(epochs)
}

/// The exact amplitude sum over the first `upto` epochs at channel `c`,
/// offset `j`.
pub open spec fn sum_upto(t: Seq<Seq<Seq<i16>>>, upto: int, c: int, j: int) -> int
    decreases upto,
{
    if upto <= 0 {
        0
    } else {
        sum_upto(t, upto - 1, c, j) + t[upto - 1][c][j]
    }
}

/// A sum of `upto` fixed-point amplitudes is bounded by `upto` times the
/// amplitude width.
proof fn lemma_sum_upto_bound(t: Seq<Seq<Seq<i16>>>, upto: int, c: int, j: int)
    requires
        0 <= upto,
    ensures
        -32768 * upto <= sum_upto(t, upto, c, j) <= 32768 * upto,
    decreases upto,
{
    if upto > 0 {
        lemma_sum_upto_bound(t, upto - 1, c, j);
    }
}

/// Averaging across epochs. The result keeps, per channel and per
/// within-epoch offset, the exact amplitude sum over all epochs together
/// with the epoch count, so the arithmetic mean is `evoked[c][j] /
/// n_epochs` without any rounding. Zero epochs yield the explicit empty
/// result, not an error.
#[verifier::loop_isolation(false)]
pub fn evoked_eeg(epochs: &EpochsData, eeg_info: &EEGInfo) -> (r: Result<EvokedData, EEGError>)
    requires
        epochs.wf(),
        epochs.tensor().len() * 32768 <= i64::MAX,
    ensures
        ({
            let t = epochs.tensor();
            match r {
                Ok(v) => {
                    &&& v.n_epochs == t.len()
                    &&& v.ch_names@ == epochs.ch_names@
                    &&& v.tmin == epochs.tmin
                    &&& v.tmax == epochs.tmax
                    &&& if t.len() == 0 {
                        v.evoked@.len() == 0
                    } else {
                        &&& v.evoked@.len() == t[0].len()
                        &&& forall|c: int|
                            0 <= c < t[0].len() ==> (#[trigger] v.evoked@[c]@).len() == (
                            if t[0].len() == 0 {
                                0int
                            } else {
                                t[0][0].len() as int
                            })
                        &&& forall|c: int, j: int|
                            0 <= c < t[0].len() && 0 <= j < t[0][0].len() ==> v.evoked@[c]@[j]
                                == #[trigger] sum_upto(t, t.len() as int, c, j)
                    }
                },
                Err(_) => false,
            }
        }),
{
    let ghost t = epochs.tensor();
    let n_epochs = epochs.epochs.len();
    let mut evoked: Vec<Vec<i64>> = Vec::new();
    if n_epochs == 0 {
        return Ok(
            EvokedData {
                evoked,
                n_epochs,
                ch_names: clone_names(&epochs.ch_names),
                tmin: epochs.tmin,
                tmax: epochs.tmax,
            },
        );
    }
    let nch = epochs.epochs[0].len();
    let len = if nch == 0 {
        0
    } else {
        epochs.epochs[0][0].len()
    };
    proof {
        assert(row_views(epochs.epochs@[0]@) == t[0]);
        if nch > 0 {
            assert(t[0][0] == epochs.epochs@[0]@[0]@);
        }
    }
    let mut c: usize = 0;
    while c < nch
        invariant
            0 <= c <= nch,
            nch == t[0].len(),
            0 < t.len(),
            t.len() * 32768 <= i64::MAX,
            nch > 0 ==> len == t[0][0].len(),
            evoked@.len() == c,
            forall|cc: int| 0 <= cc < c ==> (#[trigger] evoked@[cc]@).len() == len,
            forall|cc: int, j: int|
                0 <= cc < c && 0 <= j < len ==> evoked@[cc]@[j] == #[trigger] sum_upto(
                    t,
                    t.len() as int,
                    cc,
                    j,
                ),
        decreases nch - c,
    {
        let mut sums: Vec<i64> = Vec::new();
        let mut j: usize = 0;
        while j < len
            invariant
                0 <= j <= len,
                sums@.len() == j,
                forall|jj: int|
                    0 <= jj < j ==> sums@[jj] == #[trigger] sum_upto(t, t.len() as int, c as int, jj),
            decreases len - j,
        {
            let mut acc: i64 = 0;
            let mut e: usize = 0;
            while e < n_epochs
                invariant
                    0 <= e <= n_epochs,
                    acc == sum_upto(t, e as int, c as int, j as int),
                decreases n_epochs - e,
            {
                proof {
                    lemma_sum_upto_bound(t, e as int, c as int, j as int);
                    assert(32768 * (e as int) + 32768 <= 32768 * (t.len() as int))
                        by (nonlinear_arith)
                        requires
                            (e as int) < (t.len() as int),
                    {};
                    assert(cuboid(t));
                    assert(t[e as int].len() == t[0].len());
                    assert(t[e as int][c as int].len() == t[0][0].len());
                    assert(t[e as int] == row_views(epochs.epochs@[e as int]@));
                    assert(t[e as int][c as int] == epochs.epochs@[e as int]@[c as int]@);
                }
                let sample = epochs.epochs[e][c][j];
                acc = acc + (sample as i64);
                e += 1;
            }
            sums.push(acc);
            j += 1;
        }
        evoked.push(sums);
        c += 1;
    }
    Ok(
        EvokedData {
            evoked,
            n_epochs,
            ch_names: clone_names(&epochs.ch_names),
            tmin: epochs.tmin,
            tmax: epochs.tmax,
        },
    )
}

/// An element-for-element copy of the channel-name list.
#[verifier::loop_isolation(false)]
fn clone_names(names: &Vec<String>) -> (r: Vec<String>)
    ensures
        r@ == names@,
{
    let mut out: Vec<String> = Vec::new();
    let mut i: usize = 0;
    while i < names.len()
        invariant
            0 <= i <= names@.len(),
            out@ == names@.subrange(0, i as int),
        decreases names@.len() - i,
    {
        out.push(names[i].clone());
        i += 1;
    }
    proof {
        assert(out@ =~= names@);
    }
    out
}

} // verus!
