use vstd::prelude::*;

verus! {

/// The state of one fork: lying on the table, or held by a philosopher.
#[derive(Debug, Clone, Copy, PartialEq, Eq, Structural)]
pub enum Fork {
    Free,
    Occupied(usize),
}

/// The forks of the table, indexed from zero around the ring.
///
/// Fork states are read and written only through `pickup_fork` and
/// `drop_forks`, which callers sharing a table run under one lock.
pub struct Table {
    forks: Vec<Fork>,
}

impl View for Table {
    type V = Seq<Fork>;

    closed spec fn view(&self) -> Seq<Fork> {
        self.forks@
    }
}

/// Index of philosopher `p`'s left fork in a ring of `n` forks.
pub open spec fn left_fork(p: int, n: int) -> int {
    p % n
}

/// Index of philosopher `p`'s right fork in a ring of `n` forks.
pub open spec fn right_fork(p: int, n: int) -> int {
    (p + 1) % n
}

impl Table {
    /// A table of `n` forks, all free.
    pub fn new(n: usize) -> (t: Table)
        ensures
            t@ == Seq::new(n as nat, |f: int| Fork::Free),
    {
        let mut forks: Vec<Fork> = Vec::new();
        let mut k: usize = 0;
        while k < n
            invariant
                k <= n,
                forks@ == Seq::new(k as nat, |f: int| Fork::Free),
            decreases n - k,
        {
            forks.push(Fork::Free);
            k = k + 1;
        }
        Table { forks }
    }

    /// The number of forks.
    pub fn len(&self) -> (r: usize)
        ensures
            r == self@.len(),
    {
        self.forks.len()
    }

    /// The state of fork `f`.
    pub fn fork(&self, f: usize) -> (r: Fork)
        requires
            f < self@.len(),
        ensures
            r == self@[f as int],
    {
        self.forks[f]
    }
}

/// Philosopher `philosopher` tries to pick up fork `fork`: a free fork
/// becomes theirs and `true` comes back; a fork that is held stays as it is
/// and `false` comes back, so the caller waits and tries again.
pub fn pickup_fork(table: &mut Table, philosopher: usize, fork: usize) -> (taken: bool)
    requires
        fork < old(table)@.len(),
    ensures
        taken == (old(table)@[fork as int] == Fork::Free),
        taken ==> final(table)@ == old(table)@.update(fork as int, Fork::Occupied(philosopher)),
        !taken ==> final(table)@ == old(table)@,
{
    if table.forks[fork] == Fork::Free {
        table.forks.set(fork, Fork::Occupied(philosopher));
        true
    } else {
        false
    }
}

/// Philosopher `philosopher` puts down both of their forks: the left one
/// and the right one are free afterwards, and no other fork changes.
pub fn drop_forks(table: &mut Table, philosopher: usize)
    requires
        philosopher < old(table)@.len(),
    ensures
        final(table)@ == old(table)@.update(
            left_fork(philosopher as int, old(table)@.len() as int),
            Fork::Free,
        ).update(right_fork(philosopher as int, old(table)@.len() as int), Fork::Free),
{
    let n: usize = table.forks.len();
    let left: usize = philosopher % n;
    let right: usize = (philosopher + 1) % n;
    table.forks.set(left, Fork::Free);
    table.forks.set(right, Fork::Free);
}

} // verus!
