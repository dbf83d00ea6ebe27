//! The training schedule.

use vstd::prelude::*;

verus! {

/// Whether training reports after this step: after the first, and after every
/// `log_every` steps.
pub fn should_log(step: usize, log_every: usize) -> (r: bool)
    requires
        log_every > 0,
    ensures
        r == (step == 1 || step as int % log_every as int == 0),
{
    step % log_every == 0 || step == 1
}

} // verus!
