//! A function whose documentation has to say when it fails and when it must
//! not be called.

use vstd::prelude::*;

verus! {

/// Succeeds for every number from 2 on, and fails for 1.
///
/// It must not be called with 0.
pub fn panic_result_example(a: usize) -> (r: core::result::Result<(), ()>)
    requires
        a != 0,
    ensures
        r is Err <==> a == 1,
{
    if a == 1 {
        Err(())
    } else {
        Ok(())
    }
}

} // verus!
