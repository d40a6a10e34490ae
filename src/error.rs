use vstd::prelude::*;

verus! {

/// What can make a sorting run fail.
#[derive(Clone, Copy, Debug, PartialEq, Eq)]
pub enum SortError {
    /// Selection by hue is not offered.
    UnsupportedMetric,
    /// A bound is not a number (its denominator is not positive), or the
    /// bottom of the range lies above its top.
    InvalidRange,
    /// A pixel id lies outside the image.
    OutOfRange,
}

} // verus!
