//! The bounded launch pool: which instance to start next, when to wait, and
//! when the whole run is over.
//!
//! The pool never starts anything itself. The caller reports what happened
//! ([`PoolEvent`]) and carries out what it is told ([`PoolAction`]).

use vstd::prelude::*;

verus! {

/// What the caller reports to the pool.
#[derive(Clone, Copy, Debug, PartialEq, Eq, Structural)]
pub enum PoolEvent {
    /// Nothing new; the previous action has been carried out.
    Poll,
    /// A launched instance has ended, on its own or killed.
    InstanceEnded,
    /// A launched instance could not be started.
    SpawnFailed,
}

/// What the pool asks of the caller.
#[derive(Clone, Copy, Debug, PartialEq, Eq, Structural)]
pub enum PoolAction {
    /// Start the instance with this index, then poll again.
    Launch(usize),
    /// Wait for a running instance to report back.
    Wait,
    /// Every instance has ended: tell the aggregator.
    SignalCompletion,
    /// An instance failed to start: give up the run.
    Abort,
    /// The run is already over; there is nothing to do.
    Halt,
}

/// How far a run has come.
#[derive(Clone, Copy, Debug, PartialEq, Eq, Structural)]
pub enum PoolPhase {
    /// Instances are still pending or running.
    Active,
    /// All instances have ended and completion has been signalled.
    Completed,
    /// A spawn failure ended the run early.
    Aborted,
}

/// The pool as plain numbers.
pub struct PoolModel {
    /// Instances configured for the run.
    pub total: nat,
    /// The most that may run at once.
    pub parallel: nat,
    /// Instances handed out so far: those with an index below this.
    pub launched: nat,
    /// Instances handed out that have not reported back.
    pub running: nat,
    pub phase: PoolPhase,
}

impl PoolModel {
    /// The pool before anything is launched.
    pub open spec fn initial(total: nat, parallel: nat) -> PoolModel {
        PoolModel { total, parallel, launched: 0, running: 0, phase: PoolPhase::Active }
    }

    /// No more instances are handed out than exist, none runs that was not
    /// handed out, and the running ones stay within the bound.
    pub open spec fn wf(self) -> bool {
        &&& self.launched <= self.total
        &&& self.running <= self.launched
        &&& self.running <= self.parallel
    }

    /// The pool with one running instance fewer, if any is running.
    pub open spec fn release(self) -> PoolModel {
        if self.running > 0 {
            PoolModel { running: (self.running - 1) as nat, ..self }
        } else {
            self
        }
    }

    /// What an active pool does once the event is accounted for: launch the
    /// next pending instance if a slot is free, else wait for a running one,
    /// else, with all instances handed out and ended, signal completion.
    pub open spec fn schedule(self) -> (PoolModel, PoolAction) {
        if self.launched < self.total && self.running < self.parallel {
            (
                PoolModel { launched: self.launched + 1, running: self.running + 1, ..self },
                PoolAction::Launch(self.launched as usize),
            )
        } else if self.running > 0 || self.launched < self.total {
            (self, PoolAction::Wait)
        } else {
            (PoolModel { phase: PoolPhase::Completed, ..self }, PoolAction::SignalCompletion)
        }
    }

    /// One step of the pool. A run that is over stays as it is. A spawn
    /// failure aborts an active run, whatever else is pending or running.
    pub open spec fn step(self, event: PoolEvent) -> (PoolModel, PoolAction) {
        match self.phase {
            PoolPhase::Active => match event {
                PoolEvent::Poll => self.schedule(),
                PoolEvent::InstanceEnded => self.release().schedule(),
                PoolEvent::SpawnFailed => (
                    PoolModel { phase: PoolPhase::Aborted, ..self.release() },
                    PoolAction::Abort,
                ),
            },
            _ => (self, PoolAction::Halt),
        }
    }

    /// The pool after a whole run of events.
    pub open spec fn run(self, events: Seq<PoolEvent>) -> PoolModel
        decreases events.len(),
    {
        if events.len() == 0 {
            self
        } else {
            self.run(events.drop_last()).step(events.last()).0
        }
    }

    /// How often completion is signalled over a whole run of events.
    pub open spec fn signals(self, events: Seq<PoolEvent>) -> nat
        decreases events.len(),
    {
        if events.len() == 0 {
            0
        } else {
            let before = self.signals(events.drop_last());
            if self.run(events.drop_last()).step(events.last()).1 == PoolAction::SignalCompletion {
                before + 1
            } else {
                before
            }
        }
    }

    /// How many instances are launched over a whole run of events.
    pub open spec fn launches(self, events: Seq<PoolEvent>) -> nat
        decreases events.len(),
    {
        if events.len() == 0 {
            0
        } else {
            let before = self.launches(events.drop_last());
            if self.run(events.drop_last()).step(events.last()).1 is Launch {
                before + 1
            } else {
                before
            }
        }
    }
}

/// Admits instances to run, at most a fixed number at a time.
#[derive(Clone, Copy, Debug)]
pub struct Supervisor {
    total: usize,
    parallel: u32,
    launched: usize,
    running: u32,
    phase: PoolPhase,
}

impl View for Supervisor {
    type V = PoolModel;

    closed spec fn view(&self) -> PoolModel {
        PoolModel {
            total: self.total as nat,
            parallel: self.parallel as nat,
            launched: self.launched as nat,
            running: self.running as nat,
            phase: self.phase,
        }
    }
}

impl Supervisor {
    /// A pool for `instances` instances, of which `parallel` may run at once.
    pub fn new(instances: usize, parallel: u32) -> (pool: Supervisor)
        ensures
            pool@ == PoolModel::initial(instances as nat, parallel as nat),
            pool@.wf(),
    {
        Supervisor { total: instances, parallel, launched: 0, running: 0, phase: PoolPhase::Active }
    }

    pub fn phase(&self) -> (phase: PoolPhase)
        ensures
            phase == self@.phase,
    {
        self.phase
    }

    /// Instances currently running.
    pub fn running(&self) -> (n: u32)
        ensures
            n == self@.running,
    {
        self.running
    }

    /// Instances handed out for launch so far.
    pub fn launched(&self) -> (n: usize)
        ensures
            n == self@.launched,
    {
        self.launched
    }

    /// Instances not yet handed out for launch.
    pub fn pending(&self) -> (n: usize)
        requires
            self@.wf(),
        ensures
            n == self@.total - self@.launched,
    {
        self.total - self.launched
    }

    /// Takes in one event and says what to do next.
    pub fn step(&mut self, event: PoolEvent) -> (action: PoolAction)
        requires
            old(self)@.wf(),
        ensures
            (final(self)@, action) == old(self)@.step(event),
            final(self)@.wf(),
            final(self)@.running <= final(self)@.parallel,
    {
        if self.phase != PoolPhase::Active {
            return PoolAction::Halt;
        }
        if event != PoolEvent::Poll && self.running > 0 {
            self.running = self.running - 1;
        }
        if event == PoolEvent::SpawnFailed {
            self.phase = PoolPhase::Aborted;
            return PoolAction::Abort;
        }
        if self.launched < self.total && self.running < self.parallel {
            let index: usize = self.launched;
            self.launched = self.launched + 1;
            self.running = self.running + 1;
            PoolAction::Launch(index)
        } else if self.running > 0 || self.launched < self.total {
            PoolAction::Wait
        } else {
            self.phase = PoolPhase::Completed;
            PoolAction::SignalCompletion
        }
    }
}

/// A step keeps a well-formed pool well-formed: in particular, no more
/// instances run than the bound allows.
pub proof fn lemma_step_preserves_wf(pool: PoolModel, event: PoolEvent)
    requires
        pool.wf(),
    ensures
        pool.step(event).0.wf(),
        pool.step(event).0.total == pool.total,
        pool.step(event).0.parallel == pool.parallel,
{
}

/// A run of events keeps a well-formed pool well-formed, with the same
/// instances and the same bound.
pub proof fn lemma_run_preserves_wf(pool: PoolModel, events: Seq<PoolEvent>)
    requires
        pool.wf(),
    ensures
        pool.run(events).wf(),
        pool.run(events).total == pool.total,
        pool.run(events).parallel == pool.parallel,
    decreases events.len(),
{
    if events.len() > 0 {
        lemma_run_preserves_wf(pool, events.drop_last());
        lemma_step_preserves_wf(pool.run(events.drop_last()), events.last());
    }
}

/// Whatever is reported, in whatever order, the number of running instances
/// never exceeds the parallelism bound.
pub proof fn lemma_running_within_bound(total: nat, parallel: nat, events: Seq<PoolEvent>)
    ensures
        PoolModel::initial(total, parallel).run(events).running <= parallel,
{
    lemma_run_preserves_wf(PoolModel::initial(total, parallel), events);
}

/// A run that is over stays over: no event changes it or signals anything.
pub proof fn lemma_ended_run_is_final(pool: PoolModel, events: Seq<PoolEvent>)
    requires
        pool.phase != PoolPhase::Active,
    ensures
        pool.run(events) == pool,
        pool.signals(events) == 0,
        pool.launches(events) == 0,
    decreases events.len(),
{
    if events.len() > 0 {
        lemma_ended_run_is_final(pool, events.drop_last());
    }
}

/// Completion is signalled at most once, and only by the step that ends the
/// run with every instance handed out and none running.
pub proof fn lemma_completion_signalled_once(pool: PoolModel, events: Seq<PoolEvent>)
    requires
        pool.wf(),
        pool.phase == PoolPhase::Active,
    ensures
        pool.signals(events) <= 1,
        pool.signals(events) == 1 <==> pool.run(events).phase == PoolPhase::Completed,
        pool.run(events).phase == PoolPhase::Completed ==> pool.run(events).running == 0
            && pool.run(events).launched == pool.run(events).total,
    decreases events.len(),
{
    if events.len() > 0 {
        lemma_completion_signalled_once(pool, events.drop_last());
        lemma_run_preserves_wf(pool, events.drop_last());
    }
}

/// With no instance configured, the first poll signals completion.
pub proof fn lemma_empty_run_completes_at_once(parallel: nat)
    ensures
        PoolModel::initial(0, parallel).step(PoolEvent::Poll).1 == PoolAction::SignalCompletion,
        PoolModel::initial(0, parallel).step(PoolEvent::Poll).0.phase == PoolPhase::Completed,
{
}

/// With room for at least one instance, the pool waits only for instances
/// that are in fact running.
pub proof fn lemma_wait_means_running(pool: PoolModel, event: PoolEvent)
    requires
        pool.wf(),
        pool.parallel > 0,
        pool.step(event).1 == PoolAction::Wait,
    ensures
        pool.step(event).0.running > 0,
{
}

/// Every instance is launched at most once: over any run of events, the
/// launches are as many as the instances handed out, which are never more
/// than there are.
pub proof fn lemma_each_instance_launched_once(total: nat, parallel: nat, events: Seq<PoolEvent>)
    ensures
        PoolModel::initial(total, parallel).launches(events) == PoolModel::initial(
            total,
            parallel,
        ).run(events).launched,
        PoolModel::initial(total, parallel).launches(events) <= total,
    decreases events.len(),
{
    let pool = PoolModel::initial(total, parallel);
    lemma_run_preserves_wf(pool, events);
    if events.len() > 0 {
        lemma_each_instance_launched_once(total, parallel, events.drop_last());
    }
}

} // verus!
