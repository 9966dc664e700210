use vstd::prelude::*;

use vstd::arithmetic::div_mod::{lemma_mod_self_0, lemma_small_mod};


use crate::fork::{left_fork, right_fork};

verus! {

/// The fork that philosopher `p` asks for first: an even philosopher takes
/// the left fork first, an odd one the right fork.
pub open spec fn first_fork(p: int, n: int) -> int {
    if p % 2 == 0 {
        left_fork(p, n)
    } else {
        right_fork(p, n)
    }
}

/// The fork that philosopher `p` asks for second: the other of the two.
pub open spec fn second_fork(p: int, n: int) -> int {
    if p % 2 == 0 {
        right_fork(p, n)
    } else {
        left_fork(p, n)
    }
}

/// Around a ring of `n` seats, philosopher `p`'s left fork is fork `p`,
/// and the right fork is the next one, wrapping to fork zero after the last.
pub proof fn lemma_ring_forks(p: int, n: int)
    requires
        0 <= p < n,
    ensures
        left_fork(p, n) == p,
        right_fork(p, n) == if p + 1 < n {
            p + 1
        } else {
            0
        },
{
    lemma_small_mod(p as nat, n as nat);
    if p + 1 < n {
        lemma_small_mod((p + 1) as nat, n as nat);
    } else {
        lemma_mod_self_0(n);
    }
}

/// The order in which philosopher `philosopher`, at a table of `n`, picks up
/// their forks: `(first, second)`.
///
/// Alternating the order by parity keeps the wait-for graph free of cycles,
/// so that no ring of philosophers can block one another.
pub fn acquisition_order(philosopher: usize, n: usize) -> (order: (usize, usize))
    requires
        philosopher < n,
    ensures
        order.0 == first_fork(philosopher as int, n as int),
        order.1 == second_fork(philosopher as int, n as int),
        philosopher % 2 == 0 ==> order == (philosopher, ((philosopher + 1) % n as int) as usize),
        philosopher % 2 == 1 ==> order == (((philosopher + 1) % n as int) as usize, philosopher),
{
    proof {
        lemma_ring_forks(philosopher as int, n as int);
    }
    let left: usize = philosopher;
    let right: usize = (philosopher + 1) % n;
    if philosopher % 2 == 0 {
        (left, right)
    } else {
        (right, left)
    }
}

} // verus!
