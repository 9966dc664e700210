//! Dining philosophers: a table of forks shared around a ring, the parity
//! rule that orders each philosopher's two requests, and a state machine for
//! the whole table whose safety and progress laws are proved.

mod dinner;
mod fork;
mod laws;
mod protocol;
mod timing;

pub use dinner::{
    count_eating, distance_sum, initial, next_phase, steps_to_second_fork, Dinner, DinnerView, Phase,
};
pub use fork::{drop_forks, left_fork, pickup_fork, right_fork, Fork, Table};
pub use laws::{
    lemma_deadlock_free, lemma_eating_bound, lemma_initial_wf, lemma_meal_reachable,
    lemma_mutual_exclusion, lemma_neighbours_not_both_eating, lemma_release_frees_forks,
    lemma_requests_own_forks, lemma_run_preserves_wf, lemma_step_preserves_wf,
    lemma_step_touches_own_forks,
};
pub use protocol::{acquisition_order, first_fork, lemma_ring_forks, second_fork};
pub use timing::{
    duration_from_byte, philosopher_count, random_duration, DEFAULT_NUM_PHILOSOPHERS, MAX_DURATION,
};
