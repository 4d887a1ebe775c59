//! Small helpers.
use vstd::prelude::*;
use core::cmp::Ordering;
use vstd::std_specs::cmp::PartialOrdSpec;

verus! {

/// `x` limited to `[min, max]`: `max` when `x > max`, else `min` when
/// `x < min`, else `x`.
pub fn clamp<T: PartialOrd>(x: T, min: T, max: T) -> (r: T)
    ensures
        T::obeys_partial_cmp_spec() ==> r == if x.partial_cmp_spec(&max) == Some(Ordering::Greater) {
            max
        } else if x.partial_cmp_spec(&min) == Some(Ordering::Less) {
            min
        } else {
            x
        },
{
    if x > max {
        return max;
    }
    if x < min {
        return min;
    }
    return x;
}

} // verus!
