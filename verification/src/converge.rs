//! The decisions of the convergence loop: measure the disagreement, stop
//! when it is below tolerance, otherwise synchronize once, stop when the
//! gradient vanished, and give up after `max_iter` rounds.
//!
//! The caller measures and synchronizes; [`ConvergeLoop`] tells it what to do
//! next and, at the end, what the outcome is.

use vstd::prelude::*;

verus! {

/// Outcome of running the convergence loop.
#[derive(Clone, Copy, Debug, PartialEq, Eq)]
pub struct ConvergenceResult {
    pub iterations: usize,
    pub converged: bool,
    pub obstruction_detected: bool,
}

/// What the caller of the loop does next.
#[derive(Clone, Copy, Debug, PartialEq, Eq)]
pub enum ConvergeAction {
    /// Measure the current disagreement and report whether it is below the
    /// tolerance.
    MeasureDisagreement,
    /// Run one synchronization step and report whether the gradient vanished.
    Synchronize,
    /// Stop with this outcome.
    Finish(ConvergenceResult),
}

/// State of the convergence loop: the round in progress, the round limit,
/// and whether the sheaf has an obstruction to agreement (H¹ > 0).
#[derive(Clone, Copy, Debug, PartialEq, Eq)]
pub struct ConvergeLoop {
    pub iteration: usize,
    pub max_iter: usize,
    pub has_obstruction: bool,
}

/// Every outcome the loop can end with: at most `max_iter` rounds; a
/// converged run took at least one round and reports no obstruction; a run
/// that did not converge used all `max_iter` rounds and reports the
/// obstruction exactly when the sheaf has one.
pub open spec fn valid_outcome(r: ConvergenceResult, max_iter: usize, has_obstruction: bool) -> bool {
    &&& r.iterations <= max_iter
    &&& r.converged ==> !r.obstruction_detected && r.iterations >= 1
    &&& !r.converged ==> r.iterations == max_iter && r.obstruction_detected == has_obstruction
}

impl ConvergeLoop {
    /// The loop is still running: the round in progress is below the limit.
    pub open spec fn running(&self) -> bool {
        self.iteration < self.max_iter
    }

    /// Start the loop. With no rounds allowed it ends at once without
    /// converging; otherwise the first round begins with a measurement.
    pub fn start(max_iter: usize, has_obstruction: bool) -> (res: (ConvergeLoop, ConvergeAction))
        ensures
            res.0.iteration == 0,
            res.0.max_iter == max_iter,
            res.0.has_obstruction == has_obstruction,
            max_iter == 0 ==> res.1 == ConvergeAction::Finish(
                ConvergenceResult {
                    iterations: 0,
                    converged: false,
                    obstruction_detected: has_obstruction,
                },
            ),
            max_iter > 0 ==> res.1 == ConvergeAction::MeasureDisagreement && res.0.running(),
            res.1 matches ConvergeAction::Finish(r) ==> valid_outcome(r, max_iter, has_obstruction),
    {
        let state = ConvergeLoop { iteration: 0, max_iter, has_obstruction };
        if max_iter == 0 {
            (
                state,
                ConvergeAction::Finish(
                    ConvergenceResult {
                        iterations: 0,
                        converged: false,
                        obstruction_detected: has_obstruction,
                    },
                ),
            )
        } else {
            (state, ConvergeAction::MeasureDisagreement)
        }
    }

    /// The disagreement was measured: stop as converged when it is below the
    /// tolerance, otherwise synchronize.
    pub fn on_disagreement(&self, below_tol: bool) -> (act: ConvergeAction)
        requires
            self.running(),
        ensures
            below_tol ==> act == ConvergeAction::Finish(
                ConvergenceResult {
                    iterations: (self.iteration + 1) as usize,
                    converged: true,
                    obstruction_detected: false,
                },
            ),
            !below_tol ==> act == ConvergeAction::Synchronize,
            act matches ConvergeAction::Finish(r) ==> valid_outcome(
                r,
                self.max_iter,
                self.has_obstruction,
            ),
    {
        if below_tol {
            ConvergeAction::Finish(
                ConvergenceResult {
                    iterations: self.iteration + 1,
                    converged: true,
                    obstruction_detected: false,
                },
            )
        } else {
            ConvergeAction::Synchronize
        }
    }

    /// One synchronization step ran: stop as converged when the gradient
    /// vanished; otherwise the round ends, and either the next round begins
    /// with a measurement or, when the limit is reached, the loop stops
    /// without converging.
    pub fn on_synchronized(&mut self, gradient_vanished: bool) -> (act: ConvergeAction)
        requires
            old(self).running(),
        ensures
            final(self).max_iter == old(self).max_iter,
            final(self).has_obstruction == old(self).has_obstruction,
            gradient_vanished ==> final(self).iteration == old(self).iteration && act
                == ConvergeAction::Finish(
                ConvergenceResult {
                    iterations: (old(self).iteration + 1) as usize,
                    converged: true,
                    obstruction_detected: false,
                },
            ),
            !gradient_vanished ==> final(self).iteration == old(self).iteration + 1,
            !gradient_vanished && final(self).iteration == final(self).max_iter ==> act
                == ConvergeAction::Finish(
                ConvergenceResult {
                    iterations: old(self).max_iter,
                    converged: false,
                    obstruction_detected: old(self).has_obstruction,
                },
            ),
            !gradient_vanished && final(self).iteration < final(self).max_iter ==> act
                == ConvergeAction::MeasureDisagreement,
            act == ConvergeAction::MeasureDisagreement ==> final(self).running(),
            act matches ConvergeAction::Finish(r) ==> valid_outcome(
                r,
                old(self).max_iter,
                old(self).has_obstruction,
            ),
    {
        if gradient_vanished {
            return ConvergeAction::Finish(
                ConvergenceResult {
                    iterations: self.iteration + 1,
                    converged: true,
                    obstruction_detected: false,
                },
            );
        }
        self.iteration = self.iteration + 1;
        if self.iteration == self.max_iter {
            ConvergeAction::Finish(
                ConvergenceResult {
                    iterations: self.max_iter,
                    converged: false,
                    obstruction_detected: self.has_obstruction,
                },
            )
        } else {
            ConvergeAction::MeasureDisagreement
        }
    }
}

} // verus!
