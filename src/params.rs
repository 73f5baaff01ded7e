use vstd::prelude::*;

verus! {

/// Why an invocation was refused.
#[derive(Clone, Copy, Debug, PartialEq, Eq, Structural)]
pub enum PbvError {
    /// The window size or the bin count is not positive.
    InvalidParameter,
    /// A window with no entries was asked to be binned.
    EmptyWindow,
}

/// Parameters of the full volume profile.
#[derive(Clone, Copy, Debug, PartialEq, Eq, Structural)]
pub struct PriceByVolumeKwargs {
    pub window_size: i32,
    pub bins: i32,
    pub center_label: bool,
    pub round: i32,
}

/// Parameters of the top-N reduction.
#[derive(Clone, Copy, Debug, PartialEq, Eq, Structural)]
pub struct PriceByVolumeTopNKwargs {
    pub window_size: i32,
    pub bins: i32,
    pub n: usize,
    pub center_label: bool,
    pub round: i32,
    pub pct: bool,
}

/// Validated parameters of the binning core.
#[derive(Clone, Copy, Debug, PartialEq, Eq, Structural)]
pub struct PbvConfig {
    pub window_size: usize,
    pub bins: u32,
    pub center_label: bool,
}

impl PbvConfig {
    /// A window of at least one entry and at least one bin.
    pub open spec fn wf(&self) -> bool {
        self.window_size >= 1 && self.bins >= 1
    }
}

/// The configuration for a window size and bin count, or `InvalidParameter`
/// when either is not positive.
pub fn make_config(window_size: i32, bins: i32, center_label: bool) -> (r: Result<PbvConfig, PbvError>)
    ensures
        r is Ok <==> window_size >= 1 && bins >= 1,
        r is Ok ==> r->Ok_0 == (PbvConfig {
            window_size: window_size as usize,
            bins: bins as u32,
            center_label,
        }) && r->Ok_0.wf(),
        r is Err ==> r->Err_0 == PbvError::InvalidParameter,
{
    if window_size < 1 || bins < 1 {
        Err(PbvError::InvalidParameter)
    } else {
        Ok(PbvConfig { window_size: window_size as usize, bins: bins as u32, center_label })
    }
}

/// Digits to round to: `None` for a negative setting, which means no rounding.
pub fn rounding_digits(round: i32) -> (r: Option<u32>)
    ensures
        r == if round >= 0 {
            Some(round as u32)
        } else {
            None::<u32>
        },
{
    if round >= 0 {
        Some(round as u32)
    } else {
        None
    }
}

impl PriceByVolumeKwargs {
    /// The binning configuration these parameters describe.
    pub fn config(&self) -> (r: Result<PbvConfig, PbvError>)
        ensures
            r is Ok <==> self.window_size >= 1 && self.bins >= 1,
            r is Ok ==> r->Ok_0 == (PbvConfig {
                window_size: self.window_size as usize,
                bins: self.bins as u32,
                center_label: self.center_label,
            }) && r->Ok_0.wf(),
            r is Err ==> r->Err_0 == PbvError::InvalidParameter,
    {
        make_config(self.window_size, self.bins, self.center_label)
    }
}

impl PriceByVolumeTopNKwargs {
    /// The binning configuration these parameters describe.
    pub fn config(&self) -> (r: Result<PbvConfig, PbvError>)
        ensures
            r is Ok <==> self.window_size >= 1 && self.bins >= 1,
            r is Ok ==> r->Ok_0 == (PbvConfig {
                window_size: self.window_size as usize,
                bins: self.bins as u32,
                center_label: self.center_label,
            }) && r->Ok_0.wf(),
            r is Err ==> r->Err_0 == PbvError::InvalidParameter,
    {
        make_config(self.window_size, self.bins, self.center_label)
    }
}

} // verus!
