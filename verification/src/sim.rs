//! Tick, lap and score bookkeeping for a single run.
//!
//! A run advances in fixed ticks. The surrounding harness owns the
//! floating-point car kinematics and collision geometry; it reports the
//! outcome of each tick (wall hits, finish-line crossing events per swept
//! corner) to a [`Simulation`], which decides when the controller is polled,
//! how the lap counter moves, when the run ends and with which [`Score`].

use vstd::prelude::*;

verus! {

use core::cmp::Ordering;

/// Number of simulation ticks per second of simulated time.
pub const TICKS_PER_SECOND: i32 = 100;

/// The controller is polled for a fresh action once every this many ticks.
pub const TICKS_PER_UPDATE: i32 = 10;

/// Length of the fan of wall-distance rays handed to the controller.
pub const NUMBER_ANGLES_TO_CHECK: usize = 60;

/// Hard budget: a run still going after this many ticks is over, unsuccessful.
pub const TICK_LIMIT: i32 = 60000;

/// Number of circuits of the course required to win.
pub const NUM_LAPS: i32 = 1;

/// The result of a single attempt around the racetrack.
#[derive(Copy, Clone, PartialEq, Eq, Structural, Debug)]
pub struct Score {
    /// Whether the attempt completed the required laps.
    pub successful: bool,
    /// The number of ticks before the run ended — by finishing, crashing
    /// into a wall, or timing out.
    pub time: i32,
}

/// The total order on scores: a successful attempt outranks an unsuccessful
/// one, and between attempts with the same outcome the smaller time ranks
/// greater.
pub open spec fn spec_score_cmp(a: Score, b: Score) -> Ordering {
    if a.successful == b.successful {
        if a.time == b.time {
            Ordering::Equal
        } else if a.time > b.time {
            Ordering::Less
        } else {
            Ordering::Greater
        }
    } else if b.successful {
        Ordering::Less
    } else {
        Ordering::Greater
    }
}

impl Score {
    /// Compares two scores; see [`spec_score_cmp`] for the order.
    pub fn cmp(&self, other: &Score) -> (r: Ordering)
        ensures
            r == spec_score_cmp(*self, *other),
    {
        if self.successful == other.successful {
            if self.time == other.time {
                Ordering::Equal
            } else if self.time > other.time {
                Ordering::Less
            } else {
                Ordering::Greater
            }
        } else if other.successful {
            Ordering::Less
        } else {
            Ordering::Greater
        }
    }
}

/// The order given by [`spec_score_cmp`] is a total order: it is reflexive,
/// antisymmetric (up to equality of scores), asymmetric between `Less` and
/// `Greater`, and transitive.
pub proof fn lemma_score_order_total(a: Score, b: Score, c: Score)
    ensures
        spec_score_cmp(a, a) == Ordering::Equal,
        spec_score_cmp(a, b) == Ordering::Equal ==> a == b,
        spec_score_cmp(a, b) == Ordering::Less <==> spec_score_cmp(b, a) == Ordering::Greater,
        spec_score_cmp(a, b) == Ordering::Less && spec_score_cmp(b, c) == Ordering::Less
            ==> spec_score_cmp(a, c) == Ordering::Less,
{
}

/// One tick's lap-counter move: a forward crossing with outstanding crossings
/// left pays one off; a backward crossing adds one; anything else leaves the
/// counter alone. (A forward crossing with none outstanding finishes the run
/// instead, see [`spec_lap_finished`], and also leaves the counter alone.)
pub open spec fn spec_lap_transition(laps: int, crossed: bool, correct_direction: bool) -> int {
    if crossed && correct_direction && laps != 0 {
        laps - 1
    } else if crossed && !correct_direction {
        laps + 1
    } else {
        laps
    }
}

/// Whether a crossing event finishes the run: the corner crossed the finish
/// line in the correct direction with no outstanding crossings left.
pub open spec fn spec_lap_finished(laps: int, crossed: bool, correct_direction: bool) -> bool {
    crossed && correct_direction && laps == 0
}

/// Decision state of one run.
///
/// The harness drives it: once per tick it calls [`begin_tick`], feeds each
/// corner's finish-line crossing event to [`passed_finish_line`], and stops
/// when [`passed_finish`] is set, when a wall was hit, or when [`ticks`]
/// reaches [`TICK_LIMIT`]; [`score`] then renders the verdict.
///
/// [`begin_tick`]: Simulation::begin_tick
/// [`passed_finish_line`]: Simulation::passed_finish_line
/// [`passed_finish`]: Simulation::passed_finish
/// [`ticks`]: Simulation::ticks
/// [`score`]: Simulation::score
pub struct Simulation {
    /// Number of ticks completed so far.
    pub ticks: i32,
    /// Outstanding finish-line crossings: four per required circuit, one for
    /// each corner of the car, paid off by forward crossings and refunded by
    /// backward ones.
    pub laps: i32,
    /// Set once a forward crossing happened with no crossings outstanding.
    pub passed_finish: bool,
}

impl Simulation {
    /// Starts the bookkeeping for a run of `track_laps` circuits.
    pub fn new(track_laps: i32) -> (s: Simulation)
        requires
            0 <= track_laps,
            4 * track_laps <= i32::MAX,
        ensures
            s.ticks == 0,
            s.laps == 4 * track_laps,
            !s.passed_finish,
    {
        Simulation { ticks: 0, laps: 4 * track_laps, passed_finish: false }
    }

    /// Whether the run is still going: the finish line has not been passed
    /// and the tick budget is not exhausted.
    pub fn running(&self) -> (r: bool)
        ensures
            r <==> (!self.passed_finish && self.ticks < TICK_LIMIT),
    {
        !self.passed_finish && self.ticks < TICK_LIMIT
    }

    /// Whether the controller must be polled for a fresh action at the start
    /// of the coming tick: every [`TICKS_PER_UPDATE`] ticks, but not before
    /// the first tick (the action for tick one is polled when the run starts).
    pub fn should_refresh_action(&self) -> (r: bool)
        requires
            self.ticks >= 0,
        ensures
            r <==> (self.ticks % TICKS_PER_UPDATE == 0 && self.ticks != 0),
    {
        self.ticks % TICKS_PER_UPDATE == 0 && self.ticks != 0
    }

    /// Advances the tick counter by one.
    pub fn begin_tick(&mut self)
        requires
            old(self).ticks < TICK_LIMIT,
        ensures
            final(self).ticks == old(self).ticks + 1,
            final(self).laps == old(self).laps,
            final(self).passed_finish == old(self).passed_finish,
    {
        self.ticks = self.ticks + 1;
    }

    /// Applies one corner's finish-line crossing event.
    ///
    /// `crossed` says whether the corner's swept segment crossed the finish
    /// line at all this tick, and `correct_direction` whether the sweep went
    /// downward over it. Returns whether this event finished the run, and
    /// records that in [`passed_finish`](Simulation::passed_finish).
    pub fn passed_finish_line(&mut self, crossed: bool, correct_direction: bool) -> (finished: bool)
        requires
            i32::MIN < old(self).laps < i32::MAX,
        ensures
            finished == spec_lap_finished(old(self).laps as int, crossed, correct_direction),
            final(self).laps == spec_lap_transition(old(self).laps as int, crossed, correct_direction),
            final(self).ticks == old(self).ticks,
            final(self).passed_finish == (old(self).passed_finish || finished),
    {
        if crossed && correct_direction && self.laps == 0 {
            self.passed_finish = true;
            true
        } else if crossed && correct_direction {
            self.laps = self.laps - 1;
            false
        } else if crossed && !correct_direction {
            self.laps = self.laps + 1;
            false
        } else {
            false
        }
    }

    /// The verdict for the run as it stands: successful exactly if the finish
    /// line has been passed, timed at the current tick count.
    pub fn score(&self) -> (r: Score)
        ensures
            r == (Score { successful: self.passed_finish, time: self.ticks }),
    {
        Score { successful: self.passed_finish, time: self.ticks }
    }
}

/// The lap counter after a sequence of crossing events, each a pair
/// `(crossed, correct_direction)`, applied in order.
pub open spec fn spec_laps_after(laps0: int, events: Seq<(bool, bool)>) -> int
    decreases events.len(),
{
    if events.len() == 0 {
        laps0
    } else {
        spec_lap_transition(
            spec_laps_after(laps0, events.drop_last()),
            events.last().0,
            events.last().1,
        )
    }
}

/// The number of crossings in `events` in the given direction: forward
/// crossings if `forward`, backward crossings otherwise.
pub open spec fn spec_count_crossings(events: Seq<(bool, bool)>, forward: bool) -> int
    decreases events.len(),
{
    if events.len() == 0 {
        0
    } else {
        spec_count_crossings(events.drop_last(), forward) + if events.last().0
            && events.last().1 == forward {
            1int
        } else {
            0int
        }
    }
}

/// Whether no event of the sequence finishes the run: at each step, the
/// counter reached so far is not zero when a forward crossing arrives.
pub open spec fn spec_no_finish_along(laps0: int, events: Seq<(bool, bool)>) -> bool {
    forall|i: int|
        0 <= i < events.len() ==> !spec_lap_finished(
            spec_laps_after(laps0, #[trigger] events.take(i)),
            events[i].0,
            events[i].1,
        )
}

/// As long as no event finishes the run, the lap counter moves by exactly
/// the difference between backward and forward crossings.
pub proof fn lemma_lap_counter_net_change(laps0: int, events: Seq<(bool, bool)>)
    requires
        spec_no_finish_along(laps0, events),
    ensures
        spec_laps_after(laps0, events) == laps0 - spec_count_crossings(events, true)
            + spec_count_crossings(events, false),
    decreases events.len(),
{
    if events.len() > 0 {
        let prefix = events.drop_last();
        assert forall|i: int|
            0 <= i < prefix.len() implies !spec_lap_finished(
            spec_laps_after(laps0, #[trigger] prefix.take(i)),
            prefix[i].0,
            prefix[i].1,
        ) by {
            assert(prefix.take(i) =~= events.take(i));
            assert(prefix[i] == events[i]);
        }
        lemma_lap_counter_net_change(laps0, prefix);
        assert(events.take(events.len() - 1) =~= prefix);
        assert(!spec_lap_finished(
            spec_laps_after(laps0, prefix),
            events.last().0,
            events.last().1,
        ));
    }
}

/// Finish-line crossings balance: over any sequence of crossing events in
/// which forward and backward crossings are equally many and no event
/// finishes the run — as along a closed trajectory that returns to the start
/// tile without ever paying off the last outstanding crossing — the lap
/// counter returns to its initial value.
pub proof fn lemma_balanced_crossings_restore_laps(laps0: int, events: Seq<(bool, bool)>)
    requires
        spec_no_finish_along(laps0, events),
        spec_count_crossings(events, true) == spec_count_crossings(events, false),
    ensures
        spec_laps_after(laps0, events) == laps0,
{
    lemma_lap_counter_net_change(laps0, events);
}

} // verus!
