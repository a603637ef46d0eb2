//! Control of the swept motion resolver: which motion an entity makes in a
//! tick, when the contact-resolution loop stops, and the cap on its rounds.
//! The geometric work (sweeps, contacts, vector arithmetic) is done by the
//! caller, who reports each outcome here as a plain fact.
use vstd::prelude::*;

verus! {

/// Most obstacles that the resolution loop handles for one entity in one tick.
pub const MAX_ITERATIONS: u8 = 5;

/// How the resolution of one entity's motion ended.
#[derive(Clone, Copy, Debug, PartialEq, Eq, Structural)]
pub enum Exit {
    /// The intended velocity was zero: nothing was swept, nothing moves.
    Stationary,
    /// The first sweep found nothing in the way.
    Clear,
    /// A sweep found no hit that survived validation.
    Unobstructed,
    /// Time, the iteration budget or the velocity ran out after a hit.
    Exhausted,
}

/// Whether motion left over when the loop is exhausted is still applied.
#[derive(Clone, Copy, Debug, PartialEq, Eq, Structural)]
pub enum LeftoverPolicy {
    Discard,
    Apply,
}

/// State of the resolution loop of one entity in one tick.
pub struct Resolution {
    iterations_left: u8,
    hits: u8,
    exit: Option<Exit>,
}

impl Resolution {
    /// Hits resolved so far.
    pub closed spec fn hits(&self) -> nat {
        self.hits as nat
    }

    /// How the loop ended, once it has.
    pub closed spec fn exit(&self) -> Option<Exit> {
        self.exit
    }

    pub open spec fn finished(&self) -> bool {
        self.exit().is_some()
    }

    /// Every hit used one round of the budget, and a loop that is still
    /// running has a round left.
    pub closed spec fn wf(&self) -> bool {
        &&& self.hits + self.iterations_left == MAX_ITERATIONS
        &&& self.exit.is_none() ==> self.iterations_left > 0
    }

    /// Starts the resolution of an entity whose intended velocity is zero
    /// or not. A zero velocity ends it at once: no sweep is made.
    pub fn begin(velocity_is_zero: bool) -> (r: Resolution)
        ensures
            r.wf(),
            r.hits() == 0,
            r.exit() == (if velocity_is_zero {
                Some(Exit::Stationary)
            } else {
                None::<Exit>
            }),
    {
        let exit = if velocity_is_zero {
            Some(Exit::Stationary)
        } else {
            None
        };
        Resolution { iterations_left: MAX_ITERATIONS, hits: 0, exit }
    }

    /// Whether the loop has ended.
    pub fn is_finished(&self) -> (r: bool)
        ensures
            r == self.finished(),
    {
        self.exit.is_some()
    }

    /// Records whether the first sweep along the full path found any
    /// candidate; without one the whole motion is applied.
    pub fn first_sweep(&mut self, any_candidate: bool)
        requires
            old(self).wf(),
            !old(self).finished(),
            old(self).hits() == 0,
        ensures
            final(self).wf(),
            final(self).hits() == 0,
            final(self).exit() == (if any_candidate {
                None::<Exit>
            } else {
                Some(Exit::Clear)
            }),
    {
        if !any_candidate {
            self.exit = Some(Exit::Clear);
        }
    }

    /// Records whether a sweep of the loop left a validated hit. Returns
    /// whether the caller must move to that hit; without one the loop ends
    /// unobstructed.
    pub fn sweep_result(&mut self, accepted_hit: bool) -> (r: bool)
        requires
            old(self).wf(),
            !old(self).finished(),
        ensures
            final(self).wf(),
            r == accepted_hit,
            final(self).hits() == old(self).hits(),
            final(self).exit() == (if accepted_hit {
                None::<Exit>
            } else {
                Some(Exit::Unobstructed)
            }),
    {
        if !accepted_hit {
            self.exit = Some(Exit::Unobstructed);
        }
        accepted_hit
    }

    /// Records that the caller moved to a hit and removed the velocity's
    /// component along its normal, and whether time and distance are left.
    /// The loop ends exhausted when either is gone or the rounds are used up.
    pub fn hit_applied(&mut self, time_left: bool, distance_left: bool)
        requires
            old(self).wf(),
            !old(self).finished(),
        ensures
            final(self).wf(),
            final(self).hits() == old(self).hits() + 1,
            final(self).hits() <= MAX_ITERATIONS,
            final(self).exit() == (if !time_left || !distance_left || final(self).hits() == MAX_ITERATIONS {
                Some(Exit::Exhausted)
            } else {
                None::<Exit>
            }),
    {
        self.hits = self.hits + 1;
        self.iterations_left = self.iterations_left - 1;
        if !time_left || !distance_left || self.iterations_left == 0 {
            self.exit = Some(Exit::Exhausted);
        }
    }

    /// How the loop ended.
    pub fn outcome(&self) -> (r: Option<Exit>)
        ensures
            r == self.exit(),
    {
        self.exit
    }

    /// Whether the velocity is still applied for the time left once the
    /// loop has ended.
    pub fn applies_leftover(&self, policy: LeftoverPolicy) -> (r: bool)
        requires
            self.finished(),
        ensures
            r == match self.exit().unwrap() {
                Exit::Stationary => false,
                Exit::Clear => true,
                Exit::Unobstructed => true,
                Exit::Exhausted => policy == LeftoverPolicy::Apply,
            },
    {
        match self.exit {
            Some(Exit::Clear) => true,
            Some(Exit::Unobstructed) => true,
            Some(Exit::Exhausted) => match policy {
                LeftoverPolicy::Apply => true,
                LeftoverPolicy::Discard => false,
            },
            _ => false,
        }
    }
}

/// In any state of the resolution loop, at most `MAX_ITERATIONS` hits have
/// been resolved, and a loop that is still running has resolved fewer.
pub proof fn lemma_iteration_cap(r: Resolution)
    requires
        r.wf(),
    ensures
        r.hits() <= MAX_ITERATIONS,
        !r.finished() ==> r.hits() < MAX_ITERATIONS,
{
}

} // verus!
