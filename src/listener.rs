//! The accept loop's rule for failed accepts.
use vstd::prelude::*;

verus! {

/// What to do after a failed accept, with the current back-off in seconds:
/// wait that long and double it, or give up once it is past 64 seconds.
pub fn accept_backoff(backoff: u64) -> (r: Option<(u64, u64)>)
    ensures
        backoff > 64 ==> r is None,
        backoff <= 64 ==> r == Some((backoff, (2 * backoff) as u64)),
{
    if backoff > 64 {
        None
    } else {
        Some((backoff, backoff * 2))
    }
}

} // verus!
