//! The sample functions of the in-kernel test harness.

use vstd::prelude::*;

verus! {

/// Two.
pub fn two() -> (r: i32)
    ensures
        r == 2,
{
    2
}

/// Five.
pub fn five() -> (r: i32)
    ensures
        r == 5,
{
    5
}

} // verus!
