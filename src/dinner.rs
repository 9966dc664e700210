use vstd::prelude::*;

use crate::fork::{drop_forks, left_fork, pickup_fork, right_fork, Fork, Table};
use crate::laws::lemma_step_preserves_wf;
use crate::protocol::{acquisition_order, first_fork, lemma_ring_forks, second_fork};

verus! {

/// Where a philosopher stands in their cycle. The phases follow one another
/// in the order written, and `Releasing` leads back to `Thinking`.
#[derive(Debug, Clone, Copy, PartialEq, Eq, Structural)]
pub enum Phase {
    /// Working privately, touching no fork.
    Thinking,
    /// About to work out the order of the two requests.
    PreparingToEat,
    /// Waiting for the first fork; holding none.
    AcquiringFirst,
    /// Holding the first fork, waiting for the second.
    AcquiringSecond,
    /// Holding both forks.
    Eating,
    /// Done eating, still holding both forks, about to put them down.
    Releasing,
}

/// The phase that follows `ph` once its step is taken.
pub open spec fn next_phase(ph: Phase) -> Phase {
    match ph {
        Phase::Thinking => Phase::PreparingToEat,
        Phase::PreparingToEat => Phase::AcquiringFirst,
        Phase::AcquiringFirst => Phase::AcquiringSecond,
        Phase::AcquiringSecond => Phase::Eating,
        Phase::Eating => Phase::Releasing,
        Phase::Releasing => Phase::Thinking,
    }
}

/// The whole table at one instant: each philosopher's phase and each
/// fork's state. Philosopher `p` sits between forks `p` and `p + 1`.
pub struct DinnerView {
    pub phases: Seq<Phase>,
    pub forks: Seq<Fork>,
}

/// The number of philosophers among the first `k` who are eating.
pub open spec fn count_eating(phases: Seq<Phase>, k: int) -> nat
    decreases k,
{
    if k <= 0 {
        0
    } else {
        count_eating(phases, k - 1) + if phases[k - 1] == Phase::Eating {
            1nat
        } else {
            0nat
        }
    }
}

/// How far phase `ph` is from waiting for the second fork, counted in steps
/// around the cycle.
pub open spec fn steps_to_second_fork(ph: Phase) -> nat {
    match ph {
        Phase::Eating => 5,
        Phase::Releasing => 4,
        Phase::Thinking => 3,
        Phase::PreparingToEat => 2,
        Phase::AcquiringFirst => 1,
        Phase::AcquiringSecond => 0,
    }
}

/// The sum of `steps_to_second_fork` over the first `k` philosophers.
pub open spec fn distance_sum(phases: Seq<Phase>, k: int) -> nat
    decreases k,
{
    if k <= 0 {
        0
    } else {
        distance_sum(phases, k - 1) + steps_to_second_fork(phases[k - 1])
    }
}

impl DinnerView {
    /// The number of philosophers, which is also the number of forks.
    pub open spec fn n(self) -> int {
        self.phases.len() as int
    }

    /// Whether philosopher `p`, by their phase, has fork `f` in hand: the
    /// first fork from the moment it is taken, the second while eating and
    /// until both are put down.
    pub open spec fn holds(self, p: int, f: int) -> bool {
        let n = self.n();
        match self.phases[p] {
            Phase::AcquiringSecond => f == first_fork(p, n),
            Phase::Eating | Phase::Releasing => f == first_fork(p, n) || f == second_fork(p, n),
            _ => false,
        }
    }

    /// The table is consistent: at least two seats, one fork per seat, and
    /// a fork is marked as held by a philosopher exactly when that
    /// philosopher's phase says they hold it.
    pub open spec fn wf(self) -> bool {
        &&& 2 <= self.n() <= usize::MAX
        &&& self.forks.len() == self.n()
        &&& forall|p: int, f: int|
            0 <= p < self.n() && 0 <= f < self.n() ==> (#[trigger] self.holds(p, f) <==> self.forks[f]
                == Fork::Occupied(p as usize))
        &&& forall|f: int|
            0 <= f < self.n() ==> (#[trigger] self.forks[f] matches Fork::Occupied(q) ==> q
                < self.n())
    }

    /// Whether philosopher `p` can take their next step now: only a
    /// philosopher waiting for a fork that is held must wait.
    pub open spec fn enabled(self, p: int) -> bool {
        let n = self.n();
        match self.phases[p] {
            Phase::AcquiringFirst => self.forks[first_fork(p, n)] == Fork::Free,
            Phase::AcquiringSecond => self.forks[second_fork(p, n)] == Fork::Free,
            _ => true,
        }
    }

    /// The table after philosopher `p` tries to take their next step: the
    /// table is unchanged where they must wait; otherwise their phase
    /// advances, a fork they acquire becomes theirs, and both of their
    /// forks are free once they release.
    pub open spec fn step(self, p: int) -> DinnerView {
        let n = self.n();
        if !self.enabled(p) {
            self
        } else {
            let phases = self.phases.update(p, next_phase(self.phases[p]));
            let forks = match self.phases[p] {
                Phase::AcquiringFirst => self.forks.update(
                    first_fork(p, n),
                    Fork::Occupied(p as usize),
                ),
                Phase::AcquiringSecond => self.forks.update(
                    second_fork(p, n),
                    Fork::Occupied(p as usize),
                ),
                Phase::Releasing => self.forks.update(left_fork(p, n), Fork::Free).update(
                    right_fork(p, n),
                    Fork::Free,
                ),
                _ => self.forks,
            };
            DinnerView { phases, forks }
        }
    }

    /// How many philosophers are eating.
    pub open spec fn eating_count(self) -> nat {
        count_eating(self.phases, self.n())
    }

    /// The table after the philosophers of `schedule` try their steps, one
    /// after another in its order.
    pub open spec fn run(self, schedule: Seq<int>) -> DinnerView
        decreases schedule.len(),
    {
        if schedule.len() == 0 {
            self
        } else {
            self.step(schedule[0]).run(schedule.drop_first())
        }
    }
}

/// The table at the start: `n` philosophers, all thinking, all forks free.
pub open spec fn initial(n: nat) -> DinnerView {
    DinnerView { phases: Seq::new(n, |p: int| Phase::Thinking), forks: Seq::new(n, |f: int| Fork::Free) }
}

/// A table of philosophers and forks, moved on one philosopher's step at a
/// time. Shared between threads it sits under one lock, so each step is
/// atomic.
pub struct Dinner {
    table: Table,
    phases: Vec<Phase>,
}

impl View for Dinner {
    type V = DinnerView;

    closed spec fn view(&self) -> DinnerView {
        DinnerView { phases: self.phases@, forks: self.table@ }
    }
}

impl Dinner {
    /// The well-formedness of the table, kept by every step.
    pub open spec fn wf(&self) -> bool {
        self@.wf()
    }

    /// A table for `n` philosophers, all thinking, with all forks free; none
    /// for fewer than two, where a philosopher would need one fork twice.
    pub fn new(n: usize) -> (d: Option<Dinner>)
        ensures
            d is None <==> n < 2,
            d matches Some(d) ==> d@ == initial(n as nat) && d.wf(),
    {
        if n < 2 {
            return None;
        }
        let table = Table::new(n);
        let mut phases: Vec<Phase> = Vec::new();
        let mut k: usize = 0;
        while k < n
            invariant
                k <= n,
                phases@ == Seq::new(k as nat, |p: int| Phase::Thinking),
            decreases n - k,
        {
            phases.push(Phase::Thinking);
            k = k + 1;
        }
        let d = Dinner { table, phases };
        assert(d@ == initial(n as nat));
        Some(d)
    }

    /// Whether philosopher `p` can take their next step now.
    pub fn can_step(&self, p: usize) -> (r: bool)
        requires
            self.wf(),
            p < self@.n(),
        ensures
            r == self@.enabled(p as int),
    {
        let n: usize = self.phases.len();
        let (first, second) = acquisition_order(p, n);
        match self.phases[p] {
            Phase::AcquiringFirst => self.table.fork(first) == Fork::Free,
            Phase::AcquiringSecond => self.table.fork(second) == Fork::Free,
            _ => true,
        }
    }

    /// Philosopher `p` takes their next step, if they can: `true` when the
    /// phase advanced, `false` when they wait for a fork that is held (the
    /// table is then unchanged, and the caller tries again later).
    ///
    /// Acquiring picks up the fork that the parity rule names, eating
    /// follows once both are held, and releasing puts both down.
    pub fn step(&mut self, p: usize) -> (progressed: bool)
        requires
            old(self).wf(),
            p < old(self)@.n(),
        ensures
            final(self).wf(),
            final(self)@ == old(self)@.step(p as int),
            progressed == old(self)@.enabled(p as int),
    {
        proof {
            lemma_step_preserves_wf(self@, p as int);
            lemma_ring_forks(p as int, self@.n());
        }
        let n: usize = self.phases.len();
        let (first, second) = acquisition_order(p, n);
        match self.phases[p] {
            Phase::Thinking => {
                self.phases.set(p, Phase::PreparingToEat);
                true
            },
            Phase::PreparingToEat => {
                self.phases.set(p, Phase::AcquiringFirst);
                true
            },
            Phase::AcquiringFirst => {
                if pickup_fork(&mut self.table, p, first) {
                    self.phases.set(p, Phase::AcquiringSecond);
                    true
                } else {
                    false
                }
            },
            Phase::AcquiringSecond => {
                if pickup_fork(&mut self.table, p, second) {
                    self.phases.set(p, Phase::Eating);
                    true
                } else {
                    false
                }
            },
            Phase::Eating => {
                self.phases.set(p, Phase::Releasing);
                true
            },
            Phase::Releasing => {
                drop_forks(&mut self.table, p);
                self.phases.set(p, Phase::Thinking);
                true
            },
        }
    }

    /// How many philosophers are eating.
    pub fn eating_count(&self) -> (r: usize)
        ensures
            r == self@.eating_count(),
    {
        let mut c: usize = 0;
        let mut k: usize = 0;
        while k < self.phases.len()
            invariant
                k <= self@.n(),
                c == count_eating(self@.phases, k as int),
                c <= k,
            decreases self@.n() - k,
        {
            if self.phases[k] == Phase::Eating {
                c = c + 1;
            }
            k = k + 1;
        }
        c
    }

    /// The number of philosophers.
    pub fn len(&self) -> (r: usize)
        ensures
            r == self@.n(),
    {
        self.phases.len()
    }

    /// Philosopher `p`'s phase.
    pub fn phase(&self, p: usize) -> (r: Phase)
        requires
            p < self@.n(),
        ensures
            r == self@.phases[p as int],
    {
        self.phases[p]
    }

    /// The state of fork `f`.
    pub fn fork(&self, f: usize) -> (r: Fork)
        requires
            self.wf(),
            f < self@.n(),
        ensures
            r == self@.forks[f as int],
    {
        self.table.fork(f)
    }
}

} // verus!
