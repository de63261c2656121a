//! When a run stops: the two caps on its length.

use vstd::prelude::*;

verus! {

/// Number of steps when neither a step cap nor a time cap is asked for.
pub const DEFAULT_MAX_STEPS: usize = 600;

/// The two stop caps, `(steps, time)`, once the default rule is applied.
///
/// A default never constrains a value asked for explicitly: a cap given alone is the only
/// one that counts (a time cap alone leaves the steps unlimited), and the default number
/// of steps applies only when no cap at all is given. The time cap is whatever was asked.
pub fn caps<T>(max_steps: Option<usize>, max_time: Option<T>) -> (r: (usize, Option<T>))
    ensures
        r.1 == max_time,
        max_steps matches Some(steps) ==> r.0 == steps,
        max_steps is None && max_time is Some ==> r.0 == usize::MAX,
        max_steps is None && max_time is None ==> r.0 == DEFAULT_MAX_STEPS,
{
    match max_steps {
        Some(steps) => (steps, max_time),
        None => match max_time {
            Some(time) => (usize::MAX, Some(time)),
            None => (DEFAULT_MAX_STEPS, None),
        },
    }
}

} // verus!
