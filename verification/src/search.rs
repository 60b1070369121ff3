//! A scan over previously computed fractions for an exact repeat.

use vstd::prelude::*;
use crate::fraction::Fraction;

verus! {

/// Returns the first position whose entry equals `num`, or `None`
/// when no entry does.
pub fn contains(nums: &Vec<Fraction>, num: Fraction) -> (r: Option<usize>)
    ensures
        match r {
            Some(i) => i < nums.len() && nums[i as int] == num
                && forall|j: int| 0 <= j < i ==> nums[j] != num,
            None => forall|j: int| 0 <= j < nums.len() ==> nums[j] != num,
        },
{
    let mut i: usize = 0;
    while i < nums.len()
        invariant
            i <= nums.len(),
            forall|j: int| 0 <= j < i ==> nums[j] != num,
        decreases nums.len() - i,
    {
        if nums[i] == num {
            return Some(i);
        }
        i = i + 1;
    }
    None
}

} // verus!
