//! Offline processing of multichannel EEG recordings: stimulation-artifact
//! removal, Butterworth filter design, time-axis resampling, and event-locked
//! epoch extraction with averaging.
//!
//! Amplitudes are fixed-width signed integers (`i16`). Quantities that carry
//! sub-sample or sub-second precision are held in fixed precision: marker
//! positions in thousandths of a sample, cut and epoch widths in
//! milliseconds, filter cutoffs in thousandths of a hertz; whenever a
//! fixed-precision value is rounded, ties go toward positive infinity. The
//! floating-point filter and Fourier kernels run outside this crate; the
//! window arithmetic, shape handling, gap bridging, linear resampling and
//! averaging around them are exact and verified here.

use vstd::prelude::*;

pub mod artifact;
pub mod epochs;
pub mod filter;
pub mod resample;
pub mod timing;

verus! {

/// Failure taxonomy of the pipeline. Every operation returns a result value;
/// none aborts the process.
#[derive(Clone, Copy, Debug, PartialEq, Eq, Structural)]
pub enum EEGError {
    /// An invalid filter cutoff or order.
    ConfigurationError,
    /// A degenerate or out-of-range window or channel index.
    BoundsError,
    /// Ragged rows handed to a matrix constructor.
    ShapeError,
    /// A degenerate curve-fit or transform construction input.
    NumericalError,
}

/// Metadata of a recording as delivered by the vendor-format reader.
#[derive(Debug, Clone)]
pub struct EEGInfo {
    pub num_ch: i32,
    pub ch_namesx: Vec<String>,
    pub ch_names: Vec<String>,
    /// Sampling rate in Hz; positive for any well-formed recording.
    pub sfreq: i32,
    pub data_orientation: String,
    pub binary_format: String,
    pub sampling_interval_in: String,
    pub sampling_interval: i32,
}

impl EEGInfo {
    pub open spec fn wf(&self) -> bool {
        0 < self.sfreq && 0 <= self.num_ch
    }
}

/// Ordered stimulation-event positions, as fractional sample indices held in
/// thousandths of a sample (position 2500.5 is stored as 2_500_500).
/// Positions are expected to lie inside the recording but are not rescaled
/// when the recording's sample rate changes.
#[derive(Debug, Clone)]
pub struct Markers {
    pub n_markers: usize,
    pub markers: Vec<u64>,
}

impl Markers {
    pub open spec fn wf(&self) -> bool {
        self.n_markers == self.markers@.len()
    }
}

/// The sequence of row contents of a channel-major sample matrix.
pub open spec fn row_views(data: Seq<Vec<i16>>) -> Seq<Seq<i16>> {
    Seq::new(data.len(), |i: int| data[i]@)
}

/// Every row has the length of the first: the matrix is rectangular.
pub open spec fn rect(rows: Seq<Seq<i16>>) -> bool {
    forall|i: int| 0 <= i < rows.len() ==> (#[trigger] rows[i]).len() == rows[0].len()
}

/// A dense `channels x samples` matrix of fixed-point amplitudes.
#[derive(Debug)]
pub struct EEGData {
    pub data: Vec<Vec<i16>>,
}

impl EEGData {
    /// The mathematical contents: one sequence per channel.
    pub open spec fn rows(&self) -> Seq<Seq<i16>> {
        row_views(self.data@)
    }

    pub open spec fn wf(&self) -> bool {
        rect(self.rows())
    }

    pub open spec fn channels(&self) -> int {
        self.rows().len() as int
    }

    /// Samples per channel; zero for a channel-less matrix.
    pub open spec fn samples(&self) -> int {
        if self.rows().len() == 0 {
            0
        } else {
            self.rows()[0].len() as int
        }
    }

    /// A matrix with no channel or no sample holds no data at all.
    pub open spec fn is_empty_spec(&self) -> bool {
        self.channels() == 0 || self.samples() == 0
    }

    pub fn num_channels(&self) -> (c: usize)
        ensures
            c == self.channels(),
    {
        self.data.len()
    }

    pub fn num_samples(&self) -> (s: usize)
        ensures
            s == self.samples(),
    {
        if self.data.len() == 0 {
            0
        } else {
            self.data[0].len()
        }
    }

    pub fn is_empty(&self) -> (e: bool)
        ensures
            e == self.is_empty_spec(),
    {
        self.num_channels() == 0 || self.num_samples() == 0
    }

    /// Matrix construction from per-channel rows. Ragged rows are rejected
    /// with `ShapeError`; they are never silently padded or truncated.
    pub fn from_rows(rows: Vec<Vec<i16>>) -> (r: Result<EEGData, EEGError>)
        ensures
            match r {
                Ok(d) => rect(row_views(rows@)) && d.data@ == rows@ && d.wf(),
                Err(e) => e == EEGError::ShapeError && !rect(row_views(rows@)),
            },
    {
        if rows.len() == 0 {
            return Ok(EEGData { data: rows });
        }
        let w = rows[0].len();
        let mut i: usize = 1;
        while i < rows.len()
            invariant
                1 <= i <= rows@.len(),
                w == rows@[0]@.len(),
                forall|k: int| 0 <= k < i ==> (#[trigger] rows@[k]@).len() == w,
            decreases rows@.len() - i,
        {
            if rows[i].len() != w {
                proof {
                    assert(row_views(rows@)[i as int].len() != row_views(rows@)[0].len());
                }
                return Err(EEGError::ShapeError);
            }
            i += 1;
        }
        Ok(EEGData { data: rows })
    }

    /// Matrix construction that also pins the shape: exactly `n_channels`
    /// rows of exactly `n_samples` entries, `ShapeError` otherwise. This is
    /// the order-preserving collection step for per-channel results.
    pub fn from_rows_exact(n_channels: usize, n_samples: usize, rows: Vec<Vec<i16>>) -> (r: Result<
        EEGData,
        EEGError,
    >)
        ensures
            match r {
                Ok(d) => {
                    &&& d.data@ == rows@
                    &&& d.wf()
                    &&& rows@.len() == n_channels
                    &&& forall|c: int|
                        0 <= c < rows@.len() ==> (#[trigger] rows@[c]@).len() == n_samples
                },
                Err(e) => {
                    &&& e == EEGError::ShapeError
                    &&& (rows@.len() != n_channels || exists|c: int|
                        0 <= c < rows@.len() && (#[trigger] rows@[c]@).len() != n_samples)
                },
            },
    {
        if rows.len() != n_channels {
            return Err(EEGError::ShapeError);
        }
        let mut i: usize = 0;
        while i < rows.len()
            invariant
                0 <= i <= rows@.len(),
                forall|k: int| 0 <= k < i ==> (#[trigger] rows@[k]@).len() == n_samples,
            decreases rows@.len() - i,
        {
            if rows[i].len() != n_samples {
                return Err(EEGError::ShapeError);
            }
            i += 1;
        }
        proof {
            assert forall|c: int| 0 <= c < rows@.len() implies (#[trigger] row_views(rows@)[c]).len()
                == row_views(rows@)[0].len() by {}
        }
        Ok(EEGData { data: rows })
    }
}

/// One channel's samples, copied out of the matrix. An empty matrix yields
/// `BoundsError`; an out-of-range channel index on a non-empty matrix is
/// excluded by precondition.
pub fn get_one_channel(ch_idx: usize, eeg_data: &EEGData) -> (r: Result<Vec<i16>, EEGError>)
    requires
        eeg_data.is_empty_spec() || ch_idx < eeg_data.channels(),
    ensures
        match r {
            Ok(v) => !eeg_data.is_empty_spec() && v@ == eeg_data.rows()[ch_idx as int],
            Err(e) => e == EEGError::BoundsError && eeg_data.is_empty_spec(),
        },
{
    if eeg_data.is_empty() {
        return Err(EEGError::BoundsError);
    }
    let row = &eeg_data.data[ch_idx];
    let mut out: Vec<i16> = Vec::new();
    let mut j: usize = 0;
    while j < row.len()
        invariant
            0 <= j <= row@.len(),
            out@ == row@.subrange(0, j as int),
        decreases row@.len() - j,
    {
        out.push(row[j]);
        j += 1;
    }
    proof {
        assert(out@ =~= row@);
    }
    Ok(out)
}

/// Whether every epoch of a `epoch x channel x sample` tensor shares the
/// shape of the first: the tensor is a cuboid.
pub open spec fn cuboid(t: Seq<Seq<Seq<i16>>>) -> bool {
    &&& forall|e: int| 0 <= e < t.len() ==> (#[trigger] t[e]).len() == t[0].len()
    &&& forall|e: int, c: int|
        0 <= e < t.len() && 0 <= c < t[e].len() ==> (#[trigger] t[e][c]).len() == t[0][0].len()
}

/// The mathematical contents of an epoch tensor.
pub open spec fn tensor_views(t: Seq<Vec<Vec<i16>>>) -> Seq<Seq<Seq<i16>>> {
    Seq::new(t.len(), |e: int| row_views(t[e]@))
}

/// Event-locked windows cut from one recording: a cuboid
/// `epoch x channel x sample` tensor. `tmin` and `tmax` are the window
/// extents in milliseconds before and after each event.
#[derive(Debug)]
pub struct EpochsData {
    pub epochs: Vec<Vec<Vec<i16>>>,
    pub ch_names: Vec<String>,
    pub tmin: u64,
    pub tmax: u64,
}

impl EpochsData {
    pub open spec fn tensor(&self) -> Seq<Seq<Seq<i16>>> {
        tensor_views(self.epochs@)
    }

    pub open spec fn wf(&self) -> bool {
        cuboid(self.tensor())
    }

    /// Tensor construction from per-epoch matrices. A ragged tensor - an
    /// epoch with a different channel count, or a channel with a different
    /// sample count - is rejected with `ShapeError`, never silently padded
    /// or truncated.
    #[verifier::loop_isolation(false)]
    pub fn from_tensor(epochs: Vec<Vec<Vec<i16>>>, ch_names: Vec<String>, tmin: u64, tmax: u64) -> (r:
        Result<EpochsData, EEGError>)
        ensures
            match r {
                Ok(d) => {
                    &&& d.epochs@ == epochs@
                    &&& d.ch_names@ == ch_names@
                    &&& d.tmin == tmin
                    &&& d.tmax == tmax
                    &&& d.wf()
                },
                Err(e) => e == EEGError::ShapeError && !cuboid(tensor_views(epochs@)),
            },
    {
        let ghost t = tensor_views(epochs@);
        if epochs.len() == 0 {
            proof {
                assert(cuboid(t));
            }
            return Ok(EpochsData { epochs, ch_names, tmin, tmax });
        }
        let n_ch = epochs[0].len();
        let n_samples = if n_ch == 0 {
            0
        } else {
            epochs[0][0].len()
        };
        let mut e: usize = 0;
        while e < epochs.len()
            invariant
                0 <= e <= epochs@.len(),
                forall|ee: int| 0 <= ee < e ==> (#[trigger] t[ee]).len() == n_ch,
                forall|ee: int, cc: int|
                    0 <= ee < e && 0 <= cc < t[ee].len() ==> (#[trigger] t[ee][cc]).len()
                        == n_samples,
            decreases epochs@.len() - e,
        {
            if epochs[e].len() != n_ch {
                proof {
                    assert(t[e as int].len() != t[0].len());
                }
                return Err(EEGError::ShapeError);
            }
            let mut c: usize = 0;
            while c < n_ch
                invariant
                    0 <= c <= n_ch,
                    forall|cc: int| 0 <= cc < c ==> (#[trigger] t[e as int][cc]).len() == n_samples,
                decreases n_ch - c,
            {
                if epochs[e][c].len() != n_samples {
                    proof {
                        assert(t[e as int][c as int].len() != t[0][0].len());
                    }
                    return Err(EEGError::ShapeError);
                }
                c += 1;
            }
            e += 1;
        }
        Ok(EpochsData { epochs, ch_names, tmin, tmax })
    }
}

/// The grand average across epochs, kept exact: `evoked[c][j]` holds the
/// amplitude sum over all epochs at channel `c`, offset `j`, and `n_epochs`
/// the shared denominator, so the mean is `evoked[c][j] / n_epochs` with no
/// rounding inside the pipeline.
#[derive(Debug)]
pub struct EvokedData {
    pub evoked: Vec<Vec<i64>>,
    pub n_epochs: usize,
    pub ch_names: Vec<String>,
    pub tmin: u64,
    pub tmax: u64,
}

} // verus!
