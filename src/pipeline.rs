use vstd::prelude::*;

use crate::evaluation::Evaluation;

verus! {

/// The network version a worker last copied from the shared handle.
#[derive(Clone, Copy, Debug, PartialEq, Eq, Structural)]
pub struct VersionTracker {
    pub index: usize,
}

impl VersionTracker {
    /// A worker that holds version `index`.
    pub fn new(index: usize) -> (r: Self)
        ensures
            r.index == index,
    {
        VersionTracker { index }
    }

    /// Looks at the shared version counter: when it is newer than the copy
    /// held, the copy is to be refreshed, and the tracker moves to it.
    pub fn refresh(&mut self, shared: usize) -> (r: bool)
        ensures
            r == (shared > old(self).index),
            final(self).index == if r {
                shared
            } else {
                old(self).index
            },
    {
        if shared > self.index {
            self.index = shared;
            true
        } else {
            false
        }
    }
}

/// What the arena worker does after looking at the shared version.
#[derive(Clone, Copy, Debug, PartialEq, Eq, Structural)]
pub struct ArenaStep {
    /// Copy the shared parameters into the challenger.
    pub reload: bool,
    /// Play a match; when false the worker yields and looks again.
    pub pit: bool,
}

/// The arena that pits the best-known network (omega) against the newest
/// one (beta), and the tally of their games since beta last changed.
#[derive(Clone, Copy, Debug, PartialEq, Eq, Structural)]
pub struct Arena {
    pub omega_index: usize,
    pub beta_index: usize,
    pub results: Evaluation,
}

impl Arena {
    /// Both networks start as the shared version `index`.
    pub fn new(index: usize) -> (r: Self)
        ensures
            r.omega_index == index,
            r.beta_index == index,
            r.results.triple() == (0int, 0int, 0int),
    {
        Arena { omega_index: index, beta_index: index, results: Evaluation::new() }
    }

    /// Looks at the shared version: one no older than beta's is loaded into
    /// beta and clears the tally. A match is played only while the two
    /// networks differ.
    pub fn observe(&mut self, shared: usize) -> (r: ArenaStep)
        ensures
            r.reload == (shared >= old(self).beta_index),
            final(self).omega_index == old(self).omega_index,
            final(self).beta_index == if r.reload {
                shared
            } else {
                old(self).beta_index
            },
            r.reload ==> final(self).results.triple() == (0int, 0int, 0int),
            !r.reload ==> final(self).results == old(self).results,
            r.pit == (final(self).omega_index != final(self).beta_index),
    {
        let reload = shared >= self.beta_index;
        if reload {
            self.beta_index = shared;
            self.results = Evaluation::new();
        }
        ArenaStep { reload, pit: self.omega_index != self.beta_index }
    }

    /// Adds a match's tally; when beta has now won at least `num / den` of
    /// the decisive games, it becomes the new omega. Returns whether it did.
    pub fn record(&mut self, pit: Evaluation, num: u32, den: u32) -> (r: bool)
        requires
            old(self).results.wins + pit.wins <= u32::MAX,
            old(self).results.losses + pit.losses <= u32::MAX,
            old(self).results.draws + pit.draws <= u32::MAX,
        ensures
            final(self).beta_index == old(self).beta_index,
            final(self).results.wins == old(self).results.wins + pit.wins,
            final(self).results.losses == old(self).results.losses + pit.losses,
            final(self).results.draws == old(self).results.draws + pit.draws,
            r == final(self).results.reaches_spec(num as int, den as int),
            final(self).omega_index == if r {
                old(self).beta_index
            } else {
                old(self).omega_index
            },
    {
        self.results.add_assign(pit);
        let promote = self.results.reaches(num, den);
        if promote {
            self.omega_index = self.beta_index;
        }
        promote
    }
}

/// Cadence of the training role: parameters are published every
/// `steps_between_publish` training steps, and every
/// `publishes_between_save`-th publication is also saved as a checkpoint.
#[derive(Clone, Copy, Debug, PartialEq, Eq, Structural)]
pub struct Cadence {
    pub steps: u64,
    pub publishes: u64,
    pub steps_between_publish: u64,
    pub publishes_between_save: u64,
}

/// What to do after a training step.
#[derive(Clone, Copy, Debug, PartialEq, Eq, Structural)]
pub struct CadenceStep {
    pub publish: bool,
    pub save: bool,
}

impl Cadence {
    pub open spec fn wf(self) -> bool {
        self.steps_between_publish > 0 && self.publishes_between_save > 0
    }

    /// No training step taken yet.
    pub fn new(steps_between_publish: u64, publishes_between_save: u64) -> (r: Self)
        requires
            steps_between_publish > 0,
            publishes_between_save > 0,
        ensures
            r.wf(),
            r.steps == 0,
            r.publishes == 0,
            r.steps_between_publish == steps_between_publish,
            r.publishes_between_save == publishes_between_save,
    {
        Cadence { steps: 0, publishes: 0, steps_between_publish, publishes_between_save }
    }

    /// Books one training step and says whether to publish, and whether to
    /// save a checkpoint.
    pub fn step(&mut self) -> (r: CadenceStep)
        requires
            old(self).wf(),
            old(self).steps < u64::MAX,
            old(self).publishes < u64::MAX,
        ensures
            final(self).wf(),
            final(self).steps_between_publish == old(self).steps_between_publish,
            final(self).publishes_between_save == old(self).publishes_between_save,
            final(self).steps == old(self).steps + 1,
            r.publish == (final(self).steps % final(self).steps_between_publish == 0),
            final(self).publishes == if r.publish {
                old(self).publishes + 1
            } else {
                old(self).publishes as int
            },
            r.save == (r.publish && final(self).publishes % final(self).publishes_between_save == 0),
    {
        self.steps = self.steps + 1;
        let publish = self.steps % self.steps_between_publish == 0;
        let mut save = false;
        if publish {
            self.publishes = self.publishes + 1;
            save = self.publishes % self.publishes_between_save == 0;
        }
        CadenceStep { publish, save }
    }
}

} // verus!
