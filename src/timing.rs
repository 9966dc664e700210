use vstd::prelude::*;

verus! {

/// The philosopher count used when none is given.
pub const DEFAULT_NUM_PHILOSOPHERS: usize = 5;

/// The longest a philosopher thinks or eats, in time units.
pub const MAX_DURATION: u64 = 32;

/// Relies on `rand::random::<u8>`, a byte drawn from the thread-local
/// generator; nothing is known of its value.
#[verifier::external_body]
fn random_byte() -> u8 {
    rand::random::<u8>()
}

/// The duration a byte stands for: its top five bits plus one, so that the
/// 256 byte values spread evenly over 1 to 32 time units.
pub fn duration_from_byte(b: u8) -> (d: u64)
    ensures
        d == b / 8 + 1,
        1 <= d <= MAX_DURATION,
{
    (b / 8) as u64 + 1
}

/// A random duration of thinking or eating, from 1 to 32 time units.
pub fn random_duration() -> (d: u64)
    ensures
        1 <= d <= MAX_DURATION,
{
    duration_from_byte(random_byte())
}

/// The number of philosophers: the count given, or five when none could be
/// read.
pub fn philosopher_count(given: Option<usize>) -> (n: usize)
    ensures
        n == match given {
            Some(k) => k,
            None => DEFAULT_NUM_PHILOSOPHERS,
        },
{
    match given {
        Some(k) => k,
        None => DEFAULT_NUM_PHILOSOPHERS,
    }
}

} // verus!
