use vstd::prelude::*;

use crate::color::{metric_of, HslComponent, Pixel};
use crate::error::SortError;
use crate::ratio::Ratio;

verus! {

/// Selects the pixels whose metric `kind` lies in `[bottom, top]`.
#[derive(Clone, Copy, Debug, PartialEq, Eq)]
pub struct Filter {
    pub kind: HslComponent,
    pub bottom: Ratio,
    pub top: Ratio,
}

/// Both bounds are numbers and the bottom does not lie above the top.
pub open spec fn range_ok(f: Filter) -> bool {
    f.bottom.wf() && f.top.wf() && f.bottom.spec_le(f.top)
}

/// The outcome of checking a filter before a run: hue selection is not
/// offered, and the range must be well formed.
pub open spec fn filter_check(f: Filter) -> Result<(), SortError> {
    if f.kind == HslComponent::Hue {
        Err(SortError::UnsupportedMetric)
    } else if !range_ok(f) {
        Err(SortError::InvalidRange)
    } else {
        Ok(())
    }
}

/// The pixel's selected metric lies in the filter's range.
pub open spec fn eligible(p: Pixel, f: Filter) -> bool {
    f.bottom.spec_le(metric_of(p, f.kind)) && metric_of(p, f.kind).spec_le(f.top)
}

impl Filter {
    /// Checks that the filter can be used for a run.
    pub fn validate(&self) -> (r: Result<(), SortError>)
        ensures
            r == filter_check(*self),
    {
        match self.kind {
            HslComponent::Hue => Err(SortError::UnsupportedMetric),
            HslComponent::Saturation | HslComponent::Luminosity => {
                if self.bottom.den <= 0 || self.top.den <= 0 || !self.bottom.le(&self.top) {
                    Err(SortError::InvalidRange)
                } else {
                    Ok(())
                }
            },
        }
    }
}

/// Whether a pixel is selected by the filter; selection by hue fails with
/// `UnsupportedMetric`.
pub fn check_eligibility(pixel: &Pixel, filter: &Filter) -> (r: Result<bool, SortError>)
    ensures
        filter.kind == HslComponent::Hue ==> r == Err::<bool, SortError>(
            SortError::UnsupportedMetric,
        ),
        filter.kind != HslComponent::Hue ==> r == Ok::<bool, SortError>(eligible(*pixel, *filter)),
{
    match filter.kind {
        HslComponent::Hue => Err(SortError::UnsupportedMetric),
        HslComponent::Saturation | HslComponent::Luminosity => {
            let m = pixel.metric(filter.kind);
            Ok(filter.bottom.le(&m) && m.le(&filter.top))
        },
    }
}

} // verus!
