use vstd::prelude::*;

use crate::dinner::{
    count_eating, distance_sum, initial, next_phase, steps_to_second_fork, DinnerView, Phase,
};
use crate::fork::{left_fork, right_fork, Fork};
use crate::protocol::{first_fork, lemma_ring_forks, second_fork};

verus! {

/// A step keeps the table consistent: whatever philosopher moves, a fork is
/// still marked as held exactly by the one philosopher whose phase says so.
pub proof fn lemma_step_preserves_wf(s: DinnerView, p: int)
    requires
        s.wf(),
        0 <= p < s.n(),
    ensures
        s.step(p).wf(),
{
    let n = s.n();
    let t = s.step(p);
    lemma_ring_forks(p, n);
    assert forall|q: int, f: int| 0 <= q < n && 0 <= f < n implies (#[trigger] t.holds(q, f)
        <==> t.forks[f] == Fork::Occupied(q as usize)) by {
        assert(s.holds(q, f) <==> s.forks[f] == Fork::Occupied(q as usize));
        assert(s.holds(p, f) <==> s.forks[f] == Fork::Occupied(p as usize));
    }
    assert forall|f: int| 0 <= f < n implies (#[trigger] t.forks[f] matches Fork::Occupied(q) ==> q
        < n) by {
        assert(s.forks[f] matches Fork::Occupied(q) ==> q < n);
    }
}

/// The table at the start is consistent, for any number of seats from two.
pub proof fn lemma_initial_wf(n: nat)
    requires
        2 <= n <= usize::MAX,
    ensures
        initial(n).wf(),
{
}

/// Any schedule of steps keeps a consistent table consistent; from the
/// table at the start, every table reached is consistent, so the laws stated
/// of consistent tables hold at all times.
pub proof fn lemma_run_preserves_wf(s: DinnerView, schedule: Seq<int>)
    requires
        s.wf(),
        forall|j: int| 0 <= j < schedule.len() ==> 0 <= #[trigger] schedule[j] < s.n(),
    ensures
        s.run(schedule).wf(),
        s.run(schedule).n() == s.n(),
    decreases schedule.len(),
{
    if schedule.len() > 0 {
        lemma_step_preserves_wf(s, schedule[0]);
        let rest = schedule.drop_first();
        assert forall|j: int| 0 <= j < rest.len() implies 0 <= #[trigger] rest[j] < s.n() by {
            assert(rest[j] == schedule[j + 1]);
        }
        lemma_run_preserves_wf(s.step(schedule[0]), rest);
    }
}

/// Mutual exclusion: in a consistent table no fork is in the hands of two
/// philosophers at once.
pub proof fn lemma_mutual_exclusion(s: DinnerView, f: int, p: int, q: int)
    requires
        s.wf(),
        0 <= f < s.n(),
        0 <= p < s.n(),
        0 <= q < s.n(),
        s.holds(p, f),
        s.holds(q, f),
    ensures
        p == q,
{
}

/// Philosopher `p` asks only for their own two forks, `p` and `p + 1`
/// around the ring, one of each, and holds no other fork.
pub proof fn lemma_requests_own_forks(s: DinnerView, p: int)
    requires
        s.wf(),
        0 <= p < s.n(),
    ensures
        first_fork(p, s.n()) != second_fork(p, s.n()),
        first_fork(p, s.n()) == left_fork(p, s.n()) || first_fork(p, s.n()) == right_fork(
            p,
            s.n(),
        ),
        second_fork(p, s.n()) == left_fork(p, s.n()) || second_fork(p, s.n()) == right_fork(
            p,
            s.n(),
        ),
        forall|f: int| #[trigger] s.holds(p, f) ==> f == left_fork(p, s.n()) || f == right_fork(p, s.n()),
{
    lemma_ring_forks(p, s.n());
}

/// A step of philosopher `p` changes the state of no fork but their own two.
pub proof fn lemma_step_touches_own_forks(s: DinnerView, p: int, f: int)
    requires
        s.wf(),
        0 <= p < s.n(),
        0 <= f < s.n(),
        f != left_fork(p, s.n()),
        f != right_fork(p, s.n()),
    ensures
        s.step(p).forks[f] == s.forks[f],
{
    lemma_ring_forks(p, s.n());
}

/// Release: once a releasing philosopher takes their step, both of their
/// forks are free, no one holds them, and the philosopher is thinking.
pub proof fn lemma_release_frees_forks(s: DinnerView, p: int)
    requires
        s.wf(),
        0 <= p < s.n(),
        s.phases[p] == Phase::Releasing,
    ensures
        s.step(p).forks[left_fork(p, s.n())] == Fork::Free,
        s.step(p).forks[right_fork(p, s.n())] == Fork::Free,
        s.step(p).phases[p] == Phase::Thinking,
        forall|q: int|
            0 <= q < s.n() ==> !#[trigger] s.step(p).holds(q, left_fork(p, s.n())) && !s.step(
                p,
            ).holds(q, right_fork(p, s.n())),
{
    lemma_ring_forks(p, s.n());
    lemma_step_preserves_wf(s, p);
    let t = s.step(p);
    assert forall|q: int| 0 <= q < s.n() implies !#[trigger] t.holds(q, left_fork(p, s.n()))
        && !t.holds(q, right_fork(p, s.n())) by {
        assert(t.holds(q, left_fork(p, s.n())) <==> t.forks[left_fork(p, s.n())]
            == Fork::Occupied(q as usize));
        assert(t.holds(q, right_fork(p, s.n())) <==> t.forks[right_fork(p, s.n())]
            == Fork::Occupied(q as usize));
    }
}

/// Deadlock freedom: in every consistent table, some philosopher can take
/// their next step, and taking it moves them on to their next phase; the
/// philosophers can never all be waiting on one another.
pub proof fn lemma_deadlock_free(s: DinnerView)
    requires
        s.wf(),
    ensures
        exists|p: int|
            0 <= p < s.n() && #[trigger] s.enabled(p) && s.step(p).phases[p] == next_phase(
                s.phases[p],
            ) && next_phase(s.phases[p]) != s.phases[p],
{
    let n = s.n();
    if forall|p: int| 0 <= p < n ==> !#[trigger] s.enabled(p) {
        lemma_ring_forks(0, n);
        lemma_ring_forks(n - 1, n);
        assert(!s.enabled(0));
        if s.phases[0] == Phase::AcquiringFirst {
            // Fork 0 is held; only philosopher n - 1, when odd, takes it first.
            let q = s.forks[0]->Occupied_0 as int;
            assert(s.holds(q, 0));
            lemma_ring_forks(q, n);
            assert(!s.enabled(q));
            assert(q == n - 1);
            // Philosopher n - 1 then waits for fork n - 1, which nobody can
            // hold as a first fork.
            let r = s.forks[n - 1]->Occupied_0 as int;
            assert(s.holds(r, n - 1));
            lemma_ring_forks(r, n);
            assert(!s.enabled(r));
        } else {
            // Philosopher 0 holds fork 0 and waits for fork 1, which nobody
            // can hold as a first fork.
            let r = s.forks[1]->Occupied_0 as int;
            assert(s.holds(r, 1));
            lemma_ring_forks(r, n);
            assert(!s.enabled(r));
        }
    }
    let p = choose|p: int| 0 <= p < n && #[trigger] s.enabled(p);
    assert(s.step(p).phases[p] == next_phase(s.phases[p]));
}

/// Neighbours never eat together: philosophers `p` and `p + 1` around the
/// ring share a fork.
pub proof fn lemma_neighbours_not_both_eating(s: DinnerView, p: int)
    requires
        s.wf(),
        0 <= p < s.n(),
    ensures
        !(s.phases[p] == Phase::Eating && s.phases[right_fork(p, s.n())] == Phase::Eating),
{
    let n = s.n();
    lemma_ring_forks(p, n);
    let q = right_fork(p, n);
    lemma_ring_forks(q, n);
    if s.phases[p] == Phase::Eating && s.phases[q] == Phase::Eating {
        assert(s.holds(p, q));
        assert(s.holds(q, q));
    }
}

/// Among the first `k` philosophers of a row in which no two neighbours
/// eat, the eaters number at most half, rounded as the row's two ends
/// allow.
proof fn lemma_count_eating_row(phases: Seq<Phase>, k: int)
    requires
        1 <= k <= phases.len(),
        forall|j: int|
            0 <= j && j + 1 < k ==> !(#[trigger] phases[j] == Phase::Eating && phases[j + 1]
                == Phase::Eating),
    ensures
        2 * count_eating(phases, k) + 1 <= k + (if phases[k - 1] == Phase::Eating {
            1int
        } else {
            0int
        }) + (if phases[0] == Phase::Eating {
            1int
        } else {
            0int
        }),
    decreases k,
{
    assert(count_eating(phases, k) == count_eating(phases, k - 1) + if phases[k - 1]
        == Phase::Eating {
        1nat
    } else {
        0nat
    });
    if k > 1 {
        lemma_count_eating_row(phases, k - 1);
        assert(!(phases[k - 2] == Phase::Eating && phases[k - 1] == Phase::Eating));
    } else {
        assert(count_eating(phases, 0) == 0);
    }
}

/// At most half of the philosophers, rounded down, are eating at once.
pub proof fn lemma_eating_bound(s: DinnerView)
    requires
        s.wf(),
    ensures
        s.eating_count() <= s.n() / 2,
{
    let n = s.n();
    assert forall|j: int| 0 <= j && j + 1 < n implies !(#[trigger] s.phases[j] == Phase::Eating
        && s.phases[j + 1] == Phase::Eating) by {
        lemma_neighbours_not_both_eat_at(s, j);
    }
    lemma_count_eating_row(s.phases, n);
    lemma_neighbours_not_both_eating(s, n - 1);
    lemma_ring_forks(n - 1, n);
}

/// Neighbours `j` and `j + 1` that sit side by side before the ring wraps
/// never eat together.
proof fn lemma_neighbours_not_both_eat_at(s: DinnerView, j: int)
    requires
        s.wf(),
        0 <= j && j + 1 < s.n(),
    ensures
        !(s.phases[j] == Phase::Eating && s.phases[j + 1] == Phase::Eating),
{
    lemma_neighbours_not_both_eating(s, j);
    lemma_ring_forks(j, s.n());
}

proof fn lemma_distance_sum_update(phases: Seq<Phase>, p: int, ph: Phase, k: int)
    requires
        0 <= p < k <= phases.len(),
    ensures
        distance_sum(phases.update(p, ph), k) + steps_to_second_fork(phases[p]) == distance_sum(
            phases,
            k,
        ) + steps_to_second_fork(ph),
    decreases k,
{
    if p < k - 1 {
        lemma_distance_sum_update(phases, p, ph, k - 1);
    } else {
        lemma_distance_sum_prefix(phases, phases.update(p, ph), p);
    }
}

proof fn lemma_distance_sum_prefix(a: Seq<Phase>, b: Seq<Phase>, k: int)
    requires
        0 <= k <= a.len(),
        k <= b.len(),
        forall|j: int| 0 <= j < k ==> a[j] == b[j],
    ensures
        distance_sum(a, k) == distance_sum(b, k),
    decreases k,
{
    if k > 0 {
        lemma_distance_sum_prefix(a, b, k - 1);
    }
}

/// Meals keep coming: from every consistent table, some schedule of steps
/// (`r.0`, each a philosopher of the table) leads to a consistent table in
/// which philosopher `r.1` holds their first fork and finds the second free,
/// so that their next step starts a meal.
pub proof fn lemma_meal_reachable(s: DinnerView) -> (r: (Seq<int>, int))
    requires
        s.wf(),
    ensures
        forall|j: int| 0 <= j < r.0.len() ==> 0 <= #[trigger] r.0[j] < s.n(),
        s.run(r.0).wf(),
        0 <= r.1 < s.n(),
        s.run(r.0).phases[r.1] == Phase::AcquiringSecond,
        s.run(r.0).enabled(r.1),
        s.run(r.0).step(r.1).phases[r.1] == Phase::Eating,
    decreases distance_sum(s.phases, s.n()),
{
    lemma_deadlock_free(s);
    let p = choose|p: int| 0 <= p < s.n() && #[trigger] s.enabled(p);
    assert(s.run(seq![]) == s);
    if s.phases[p] == Phase::AcquiringSecond {
        (seq![], p)
    } else {
        let t = s.step(p);
        lemma_step_preserves_wf(s, p);
        lemma_distance_sum_update(s.phases, p, next_phase(s.phases[p]), s.n());
        let (rest, q) = lemma_meal_reachable(t);
        let schedule = seq![p] + rest;
        assert(schedule.drop_first() == rest);
        (schedule, q)
    }
}

} // verus!
