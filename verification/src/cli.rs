//! What the command line takes: defaults and bounds.

use vstd::prelude::*;

verus! {

/// The configuration file where none is named.
pub const DEFAULT_CONFIG: &'static str = "config.yaml";

/// The session file.
pub const SESSION_FILE: &'static str = "relay.session";

/// How many messages a backfill relays where no number is given.
pub const BACKFILL_DEFAULT_COUNT: usize = 3;

/// How many messages a backfill relays at most.
pub const BACKFILL_MAX_COUNT: usize = 25;

/// The number of messages that a backfill relays when `n` are asked for: one at least,
/// [`BACKFILL_MAX_COUNT`] at most.
pub fn clamp_backfill_count(n: usize) -> (r: usize)
    ensures
        r == (if n < 1 {
            1
        } else if n > BACKFILL_MAX_COUNT {
            BACKFILL_MAX_COUNT
        } else {
            n
        }),
{
    if n < 1 {
        1
    } else if n > BACKFILL_MAX_COUNT {
        BACKFILL_MAX_COUNT
    } else {
        n
    }
}

} // verus!
