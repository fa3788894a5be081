//! Per-instance memory ceiling and the watchdog that enforces it.

use vstd::prelude::*;

verus! {

/// Seconds between two memory samples of one running instance.
pub const SAMPLE_INTERVAL_SECS: u64 = 1;

/// The memory shared by all running instances, and how many may run at once.
///
/// Each instance may use the total divided by the parallelism bound, rounded
/// down. All amounts are in kilobytes.
#[derive(Clone, Copy, Debug)]
pub struct MemoryBudget {
    total_kb: u64,
    parallel: u32,
}

impl MemoryBudget {
    /// A budget is usable when at least one instance may run.
    pub open spec fn wf(self) -> bool {
        self.parallel_bound() > 0
    }

    pub closed spec fn total(self) -> nat {
        self.total_kb as nat
    }

    pub closed spec fn parallel_bound(self) -> nat {
        self.parallel as nat
    }

    /// The most one instance may use: the total divided by the bound.
    pub open spec fn ceiling(self) -> nat {
        self.total() / self.parallel_bound()
    }

    /// Splits `total_kb` among `parallel` instances. There is no share to
    /// speak of when no instance may run, so a bound of zero gives `None`.
    pub fn new(total_kb: u64, parallel: u32) -> (budget: Option<MemoryBudget>)
        ensures
            parallel == 0 <==> budget is None,
            budget matches Some(b) ==> b.wf() && b.total() == total_kb && b.parallel_bound()
                == parallel,
    {
        if parallel == 0 {
            None
        } else {
            Some(MemoryBudget { total_kb, parallel })
        }
    }

    pub fn total_kb(&self) -> (kb: u64)
        ensures
            kb == self.total(),
    {
        self.total_kb
    }

    pub fn parallel(&self) -> (p: u32)
        ensures
            p == self.parallel_bound(),
    {
        self.parallel
    }

    /// The per-instance ceiling in kilobytes.
    pub fn per_instance_kb(&self) -> (kb: u64)
        requires
            self.wf(),
        ensures
            kb == self.ceiling(),
    {
        self.total_kb / (self.parallel as u64)
    }

    /// Whether a sample of `used_kb` is over the ceiling. A sample exactly at
    /// the ceiling is within budget.
    pub fn exceeded_by(&self, used_kb: u64) -> (over: bool)
        requires
            self.wf(),
        ensures
            over == (used_kb > self.ceiling()),
    {
        used_kb > self.per_instance_kb()
    }
}

/// What the caller observed about a watched instance.
#[derive(Clone, Copy, Debug, PartialEq, Eq, Structural)]
pub enum WatchdogEvent {
    /// The process ended on its own.
    Exited,
    /// A sampling tick found the process using this many kilobytes.
    Sampled(u64),
    /// A sampling tick found no process under the instance's id.
    Vanished,
}

/// What the caller has to do next for a watched instance.
#[derive(Clone, Copy, Debug, PartialEq, Eq, Structural)]
pub enum WatchdogAction {
    /// Sleep one interval, or until the process ends, and report back.
    KeepWatching,
    /// Kill the process; it has outgrown its share.
    Terminate,
    /// Nothing is left to watch.
    Stop,
}

/// Where a watched instance stands.
#[derive(Clone, Copy, Debug, PartialEq, Eq, Structural)]
pub enum InstanceStatus {
    Running,
    /// Ended on its own.
    Exited,
    /// Killed for exceeding its memory ceiling. This counts as a normal end.
    Killed,
    /// Gone from the process table before its exit was seen.
    Vanished,
}

/// The status after `event` is observed in `status`, and the action it calls
/// for. Only a running instance changes; a sample strictly above `ceiling`
/// is the one thing that gets it killed.
pub open spec fn watch_step(status: InstanceStatus, ceiling: nat, event: WatchdogEvent) -> (
    InstanceStatus,
    WatchdogAction,
) {
    match status {
        InstanceStatus::Running => match event {
            WatchdogEvent::Exited => (InstanceStatus::Exited, WatchdogAction::Stop),
            WatchdogEvent::Vanished => (InstanceStatus::Vanished, WatchdogAction::Stop),
            WatchdogEvent::Sampled(kb) => if kb > ceiling {
                (InstanceStatus::Killed, WatchdogAction::Terminate)
            } else {
                (InstanceStatus::Running, WatchdogAction::KeepWatching)
            },
        },
        _ => (status, WatchdogAction::Stop),
    }
}

/// The status after a whole run of events, starting from `status`.
pub open spec fn watch_run(status: InstanceStatus, ceiling: nat, events: Seq<WatchdogEvent>)
    -> InstanceStatus
    decreases events.len(),
{
    if events.len() == 0 {
        status
    } else {
        watch_step(watch_run(status, ceiling, events.drop_last()), ceiling, events.last()).0
    }
}

/// Watches one instance from launch until it ends or is killed.
#[derive(Clone, Copy, Debug)]
pub struct Watchdog {
    budget: MemoryBudget,
    status: InstanceStatus,
}

impl Watchdog {
    pub open spec fn wf(self) -> bool {
        self.budget_model().wf()
    }

    pub closed spec fn budget_model(self) -> MemoryBudget {
        self.budget
    }

    pub closed spec fn status_model(self) -> InstanceStatus {
        self.status
    }

    /// A watchdog for an instance that has just been launched.
    pub fn new(budget: MemoryBudget) -> (w: Watchdog)
        requires
            budget.wf(),
        ensures
            w.wf(),
            w.budget_model() == budget,
            w.status_model() == InstanceStatus::Running,
    {
        Watchdog { budget, status: InstanceStatus::Running }
    }

    pub fn status(&self) -> (s: InstanceStatus)
        ensures
            s == self.status_model(),
    {
        self.status
    }

    /// Whether the instance is still alive as far as the watchdog knows.
    pub fn is_running(&self) -> (r: bool)
        ensures
            r == (self.status_model() == InstanceStatus::Running),
    {
        self.status == InstanceStatus::Running
    }

    /// Takes in one observation and says what to do about it.
    pub fn observe(&mut self, event: WatchdogEvent) -> (action: WatchdogAction)
        requires
            old(self).wf(),
        ensures
            final(self).wf(),
            final(self).budget_model() == old(self).budget_model(),
            (final(self).status_model(), action) == watch_step(
                old(self).status_model(),
                old(self).budget_model().ceiling(),
                event,
            ),
    {
        if self.status != InstanceStatus::Running {
            return WatchdogAction::Stop;
        }
        match event {
            WatchdogEvent::Exited => {
                self.status = InstanceStatus::Exited;
                WatchdogAction::Stop
            },
            WatchdogEvent::Vanished => {
                self.status = InstanceStatus::Vanished;
                WatchdogAction::Stop
            },
            WatchdogEvent::Sampled(kb) => {
                if self.budget.exceeded_by(kb) {
                    self.status = InstanceStatus::Killed;
                    WatchdogAction::Terminate
                } else {
                    WatchdogAction::KeepWatching
                }
            },
        }
    }
}

/// Every sample in the run is at or below the ceiling.
pub open spec fn within_ceiling(events: Seq<WatchdogEvent>, ceiling: nat) -> bool {
    forall|i: int|
        0 <= i < events.len() ==> ((#[trigger] events[i]) matches WatchdogEvent::Sampled(kb)
            ==> kb <= ceiling)
}

/// Every event in the run is a sample at or below the ceiling.
pub open spec fn quiet(events: Seq<WatchdogEvent>, ceiling: nat) -> bool {
    forall|i: int|
        0 <= i < events.len() ==> ((#[trigger] events[i]) matches WatchdogEvent::Sampled(kb)
            && kb <= ceiling)
}

/// For a running instance the sample alone decides: above the ceiling it is
/// killed, at the ceiling or below it is left alone.
pub proof fn lemma_sample_decides(ceiling: nat, kb: u64)
    ensures
        kb > ceiling ==> watch_step(InstanceStatus::Running, ceiling, WatchdogEvent::Sampled(kb))
            == (InstanceStatus::Killed, WatchdogAction::Terminate),
        kb <= ceiling ==> watch_step(InstanceStatus::Running, ceiling, WatchdogEvent::Sampled(kb))
            == (InstanceStatus::Running, WatchdogAction::KeepWatching),
{
}

/// An instance that has ended stays as it ended.
pub proof fn lemma_ended_stays_ended(
    status: InstanceStatus,
    ceiling: nat,
    events: Seq<WatchdogEvent>,
)
    requires
        status != InstanceStatus::Running,
    ensures
        watch_run(status, ceiling, events) == status,
    decreases events.len(),
{
    if events.len() > 0 {
        lemma_ended_stays_ended(status, ceiling, events.drop_last());
    }
}

/// No instance is killed while its samples stay within the ceiling.
pub proof fn lemma_never_killed_within_ceiling(ceiling: nat, events: Seq<WatchdogEvent>)
    requires
        within_ceiling(events, ceiling),
    ensures
        watch_run(InstanceStatus::Running, ceiling, events) != InstanceStatus::Killed,
    decreases events.len(),
{
    if events.len() > 0 {
        let head = events.drop_last();
        assert forall|i: int| 0 <= i < head.len() implies ((#[trigger] head[i]) matches WatchdogEvent::Sampled(
            kb,
        ) ==> kb <= ceiling) by {
            assert(head[i] == events[i]);
        }
        lemma_never_killed_within_ceiling(ceiling, head);
        assert(events.last() == events[events.len() - 1]);
    }
}

/// An instance whose samples were all within the ceiling is still running,
/// and the first sample above the ceiling gets it killed, at that very
/// sample.
pub proof fn lemma_killed_at_first_excess(ceiling: nat, events: Seq<WatchdogEvent>, kb: u64)
    requires
        quiet(events, ceiling),
        kb > ceiling,
    ensures
        watch_run(InstanceStatus::Running, ceiling, events) == InstanceStatus::Running,
        watch_step(
            watch_run(InstanceStatus::Running, ceiling, events),
            ceiling,
            WatchdogEvent::Sampled(kb),
        ) == (InstanceStatus::Killed, WatchdogAction::Terminate),
        watch_run(InstanceStatus::Running, ceiling, events.push(WatchdogEvent::Sampled(kb)))
            == InstanceStatus::Killed,
    decreases events.len(),
{
    lemma_stays_running_while_quiet(ceiling, events);
    assert(events.push(WatchdogEvent::Sampled(kb)).drop_last() =~= events);
}

/// An instance of which nothing but samples within the ceiling was seen is
/// still running.
pub proof fn lemma_stays_running_while_quiet(ceiling: nat, events: Seq<WatchdogEvent>)
    requires
        quiet(events, ceiling),
    ensures
        watch_run(InstanceStatus::Running, ceiling, events) == InstanceStatus::Running,
    decreases events.len(),
{
    if events.len() > 0 {
        let head = events.drop_last();
        assert forall|i: int| 0 <= i < head.len() implies ((#[trigger] head[i]) matches WatchdogEvent::Sampled(
            kb,
        ) && kb <= ceiling) by {
            assert(head[i] == events[i]);
        }
        lemma_stays_running_while_quiet(ceiling, head);
        assert(events.last() == events[events.len() - 1]);
    }
}

} // verus!
