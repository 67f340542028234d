//! The order of the index's day keys.

use vstd::prelude::*;

verus! {

/// Day keys `(year, month, day)` compare as std orders tuples of integers.
pub open spec fn day_keys_ordered() -> bool {
    vstd::laws_cmp::obeys_cmp::<(i32, u32, u32)>()
}

pub proof fn lemma_day_keys_ordered()
    ensures
        day_keys_ordered(),
{
    broadcast use vstd::laws_cmp::group_laws_cmp;

}

} // verus!
