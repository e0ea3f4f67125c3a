//! Butterworth filter design: validation of the cascade parameters. A
//! design is a recipe - order, cutoff, rate and band - from which the
//! floating-point kernel outside this crate derives its second-order
//! sections; designs are made fresh per call, never cached. Cutoffs are
//! held in thousandths of a hertz so that sub-hertz high-pass corners keep
//! their precision.

use vstd::prelude::*;

use crate::{EEGData, EEGError};

verus! {

/// Which side of the band a cascade limits.
#[derive(Clone, Copy, Debug, PartialEq, Eq, Structural)]
pub enum FilterBand {
    Lowpass,
    Highpass,
}

/// Whether a Butterworth design is realizable: a positive order and a
/// cutoff strictly between zero and the Nyquist frequency (half the
/// sample rate; `cutoff_milli_hz / 1000 < sfreq / 2`).
pub open spec fn valid_design(order: int, cutoff_milli_hz: int, sfreq: int) -> bool {
    0 < order && 0 < cutoff_milli_hz && 2 * cutoff_milli_hz < 1000 * sfreq
}

/// A validated Butterworth cascade recipe.
#[derive(Clone, Copy, Debug, PartialEq, Eq, Structural)]
pub struct ButterDesign {
    pub order: usize,
    /// Cutoff frequency in thousandths of a hertz.
    pub cutoff_milli_hz: u64,
    /// Sample rate of the data the cascade is designed for, in hertz.
    pub sfreq: i32,
    pub band: FilterBand,
}

impl ButterDesign {
    pub open spec fn wf(&self) -> bool {
        valid_design(self.order as int, self.cutoff_milli_hz as int, self.sfreq as int)
    }
}

/// Shared validation of both designs.
fn design_butter(order: usize, cutoff_milli_hz: u64, sfreq: i32, band: FilterBand) -> (r: Result<
    ButterDesign,
    EEGError,
>)
    requires
        0 < sfreq,
    ensures
        match r {
            Ok(d) => {
                &&& valid_design(order as int, cutoff_milli_hz as int, sfreq as int)
                &&& d == (ButterDesign { order, cutoff_milli_hz, sfreq, band })
            },
            Err(e) => {
                &&& e == EEGError::ConfigurationError
                &&& !valid_design(order as int, cutoff_milli_hz as int, sfreq as int)
            },
        },
{
    if order == 0 || cutoff_milli_hz == 0 {
        return Err(EEGError::ConfigurationError);
    }
    if 2 * (cutoff_milli_hz as u128) >= 1000 * (sfreq as u128) {
        return Err(EEGError::ConfigurationError);
    }
    Ok(ButterDesign { order, cutoff_milli_hz, sfreq, band })
}

/// A low-pass Butterworth cascade recipe of the given order with cutoff
/// `hfreq_milli_hz` thousandths of a hertz at `sfreq` Hz.
/// `ConfigurationError` exactly when the order is zero or the cutoff is
/// not strictly between zero and Nyquist.
pub fn design_butter_lp(order: usize, hfreq_milli_hz: u64, sfreq: i32) -> (r: Result<
    ButterDesign,
    EEGError,
>)
    requires
        0 < sfreq,
    ensures
        match r {
            Ok(d) => {
                &&& valid_design(order as int, hfreq_milli_hz as int, sfreq as int)
                &&& d == (ButterDesign {
                    order,
                    cutoff_milli_hz: hfreq_milli_hz,
                    sfreq,
                    band: FilterBand::Lowpass,
                })
            },
            Err(e) => {
                &&& e == EEGError::ConfigurationError
                &&& !valid_design(order as int, hfreq_milli_hz as int, sfreq as int)
            },
        },
{
    design_butter(order, hfreq_milli_hz, sfreq, FilterBand::Lowpass)
}

/// A high-pass Butterworth cascade recipe of the given order with cutoff
/// `lfreq_milli_hz` thousandths of a hertz at `sfreq` Hz.
/// `ConfigurationError` exactly when the order is zero or the cutoff is
/// not strictly between zero and Nyquist.
pub fn design_butter_hp(order: usize, lfreq_milli_hz: u64, sfreq: i32) -> (r: Result<
    ButterDesign,
    EEGError,
>)
    requires
        0 < sfreq,
    ensures
        match r {
            Ok(d) => {
                &&& valid_design(order as int, lfreq_milli_hz as int, sfreq as int)
                &&& d == (ButterDesign {
                    order,
                    cutoff_milli_hz: lfreq_milli_hz,
                    sfreq,
                    band: FilterBand::Highpass,
                })
            },
            Err(e) => {
                &&& e == EEGError::ConfigurationError
                &&& !valid_design(order as int, lfreq_milli_hz as int, sfreq as int)
            },
        },
{
    design_butter(order, lfreq_milli_hz, sfreq, FilterBand::Highpass)
}

/// Order-preserving assembly of per-channel zero-phase filter results:
/// the output of the filter bank must have exactly the shape of its
/// input - one row per channel, one sample per source sample - and any
/// other shape is a `ShapeError`, so the result is independent of the
/// order in which channels finished.
pub fn filter_assemble(n_channels: usize, n_samples: usize, rows: Vec<Vec<i16>>) -> (r: Result<
    EEGData,
    EEGError,
>)
    ensures
        match r {
            Ok(d) => {
                &&& d.data@ == rows@
                &&& d.wf()
                &&& rows@.len() == n_channels
                &&& forall|c: int| 0 <= c < rows@.len() ==> (#[trigger] rows@[c]@).len() == n_samples
            },
            Err(e) => {
                &&& e == EEGError::ShapeError
                &&& (rows@.len() != n_channels || exists|c: int|
                    0 <= c < rows@.len() && (#[trigger] rows@[c]@).len() != n_samples)
            },
        },
{
    EEGData::from_rows_exact(n_channels, n_samples, rows)
}

} // verus!
