//! The single consumer of the record queue.
//!
//! The aggregator takes in measurements until it is told that every
//! instance has finished, or that the run was interrupted. Either way it
//! ends with what it has collected so far. A queue that closes without
//! either signal means that a producer was lost, which is reported as a
//! failure and never passed off as an empty result.

use crate::aggregate::{
    absorb_entry, aggregate, aggregate_entries, lemma_aggregate_entries_is_aggregate,
    lemma_aggregate_order_independent, map_of, update_data_map, ClauseMap, Entry, ReportRow,
    report_of, rows_of, Row,
};
use crate::clause::{ClauseData, Record};
use vstd::prelude::*;

verus! {

/// How many records the queue between the decoders and the aggregator
/// holds. Decoders wait while it is full.
pub const QUEUE_CAPACITY: usize = 10000;

/// What reaches the aggregator, as a plain value.
pub enum Event {
    /// A measurement was taken from the queue.
    Record(Record),
    /// An interrupt was requested from outside.
    Interrupted,
    /// The supervisor signalled that every instance has finished.
    AllFinished,
    /// The supervisor went away without signalling anything.
    CompletionLost,
    /// The queue was closed with neither signal given.
    ChannelClosed,
}

/// What reaches the aggregator.
#[derive(Debug)]
pub enum AggregatorEvent {
    /// A measurement was taken from the queue.
    Record(ClauseData),
    /// An interrupt was requested from outside.
    Interrupted,
    /// The supervisor signalled that every instance has finished.
    AllFinished,
    /// The supervisor went away without signalling anything.
    CompletionLost,
    /// The queue was closed with neither signal given.
    ChannelClosed,
}

impl View for AggregatorEvent {
    type V = Event;

    open spec fn view(&self) -> Event {
        match self {
            AggregatorEvent::Record(data) => Event::Record(data@),
            AggregatorEvent::Interrupted => Event::Interrupted,
            AggregatorEvent::AllFinished => Event::AllFinished,
            AggregatorEvent::CompletionLost => Event::CompletionLost,
            AggregatorEvent::ChannelClosed => Event::ChannelClosed,
        }
    }
}

/// What the caller has to do after an event.
#[derive(Clone, Copy, Debug, PartialEq, Eq, Structural)]
pub enum AggregatorAction {
    /// Wait for the next event.
    Continue,
    /// Stop and report what was collected.
    Finish,
    /// Stop and report the failure.
    Fail,
}

/// Where the aggregator stands.
#[derive(Clone, Copy, Debug, PartialEq, Eq, Structural)]
pub enum AggregatorPhase {
    /// Taking in measurements.
    Collecting,
    /// Ended by an interrupt.
    Interrupted,
    /// Ended because every instance has finished.
    Completed,
    /// Ended because the queue was lost.
    Broken,
}

/// The aggregator as plain values.
pub struct AggregatorModel {
    /// What was collected, in the order in which the keys were first seen.
    pub entries: Seq<Entry>,
    pub phase: AggregatorPhase,
    /// Whether the completion signal can still come.
    pub awaits_completion: bool,
}

impl AggregatorModel {
    /// The aggregator before anything has reached it.
    pub open spec fn initial() -> AggregatorModel {
        AggregatorModel {
            entries: Seq::empty(),
            phase: AggregatorPhase::Collecting,
            awaits_completion: true,
        }
    }

    /// One step. While collecting, a measurement is taken in; an interrupt,
    /// the completion signal or the loss of the queue ends the collection.
    /// The loss of the supervisor ends nothing: the collection goes on
    /// without waiting for its signal, and the supervisor's failure is
    /// reported where it is noticed. Once ended, nothing changes any more.
    pub open spec fn step(self, event: Event) -> (AggregatorModel, AggregatorAction) {
        match self.phase {
            AggregatorPhase::Collecting => match event {
                Event::Record(record) => (
                    AggregatorModel { entries: absorb_entry(self.entries, record), ..self },
                    AggregatorAction::Continue,
                ),
                Event::Interrupted => (
                    AggregatorModel { phase: AggregatorPhase::Interrupted, ..self },
                    AggregatorAction::Finish,
                ),
                Event::AllFinished => (
                    AggregatorModel { phase: AggregatorPhase::Completed, ..self },
                    AggregatorAction::Finish,
                ),
                Event::CompletionLost => (
                    AggregatorModel { awaits_completion: false, ..self },
                    AggregatorAction::Continue,
                ),
                Event::ChannelClosed => (
                    AggregatorModel { phase: AggregatorPhase::Broken, ..self },
                    AggregatorAction::Fail,
                ),
            },
            AggregatorPhase::Broken => (self, AggregatorAction::Fail),
            _ => (self, AggregatorAction::Finish),
        }
    }

    /// The aggregator after a whole run of events.
    pub open spec fn run(self, events: Seq<Event>) -> AggregatorModel
        decreases events.len(),
    {
        if events.len() == 0 {
            self
        } else {
            self.run(events.drop_last()).step(events.last()).0
        }
    }
}

/// Whether an event ends the collection.
pub open spec fn ends_collection(event: Event) -> bool {
    event is Interrupted || event is AllFinished || event is ChannelClosed
}

/// Whether some event in the run ends the collection.
pub open spec fn stopped(events: Seq<Event>) -> bool {
    exists|i: int| 0 <= i < events.len() && ends_collection(#[trigger] events[i])
}

/// The measurements that arrive before the first event that ends the
/// collection.
pub open spec fn records_until_stop(events: Seq<Event>) -> Seq<Record>
    decreases events.len(),
{
    if events.len() == 0 {
        Seq::empty()
    } else if !stopped(events.drop_last()) && events.last() is Record {
        records_until_stop(events.drop_last()).push(events.last()->Record_0)
    } else {
        records_until_stop(events.drop_last())
    }
}

/// Collects measurements until the run ends.
#[derive(Debug)]
pub struct Aggregator {
    data: ClauseMap,
    phase: AggregatorPhase,
    awaits_completion: bool,
}

impl View for Aggregator {
    type V = AggregatorModel;

    closed spec fn view(&self) -> AggregatorModel {
        AggregatorModel {
            entries: self.data.entries(),
            phase: self.phase,
            awaits_completion: self.awaits_completion,
        }
    }
}

impl Aggregator {
    /// What was collected.
    pub closed spec fn collected(self) -> ClauseMap {
        self.data
    }

    pub open spec fn wf(self) -> bool {
        self.collected().wf() && self.collected().entries() == self@.entries
    }

    /// Whether `event` can be taken in: a measurement, while collecting,
    /// needs room in the count of its clause.
    pub open spec fn accepts(self, event: Event) -> bool {
        self@.phase == AggregatorPhase::Collecting ==> match event {
            Event::Record(record) => self.collected().has_room(record.key),
            _ => true,
        }
    }

    /// An aggregator that has collected nothing yet.
    pub fn new() -> (aggregator: Aggregator)
        ensures
            aggregator.wf(),
            aggregator@ == AggregatorModel::initial(),
    {
        Aggregator {
            data: ClauseMap::new(),
            phase: AggregatorPhase::Collecting,
            awaits_completion: true,
        }
    }

    pub fn phase(&self) -> (phase: AggregatorPhase)
        ensures
            phase == self@.phase,
    {
        self.phase
    }

    /// Whether the completion signal can still come, so that it is worth
    /// waiting for.
    pub fn awaits_completion(&self) -> (awaits: bool)
        ensures
            awaits == self@.awaits_completion,
    {
        self.awaits_completion
    }

    /// Whether `event` can be taken in.
    pub fn can_take(&self, event: &AggregatorEvent) -> (ok: bool)
        requires
            self.wf(),
        ensures
            ok == self.accepts(event@),
    {
        if self.phase != AggregatorPhase::Collecting {
            return true;
        }
        match event {
            AggregatorEvent::Record(data) => self.data.has_room_for(&data.literals),
            _ => true,
        }
    }

    /// Takes in one event and says what to do next.
    pub fn on_event(&mut self, event: AggregatorEvent) -> (action: AggregatorAction)
        requires
            old(self).wf(),
            old(self).accepts(event@),
        ensures
            final(self).wf(),
            (final(self)@, action) == old(self)@.step(event@),
    {
        match self.phase {
            AggregatorPhase::Collecting => match event {
                AggregatorEvent::Record(data) => {
                    update_data_map(&mut self.data, &data);
                    AggregatorAction::Continue
                },
                AggregatorEvent::Interrupted => {
                    self.phase = AggregatorPhase::Interrupted;
                    AggregatorAction::Finish
                },
                AggregatorEvent::AllFinished => {
                    self.phase = AggregatorPhase::Completed;
                    AggregatorAction::Finish
                },
                AggregatorEvent::CompletionLost => {
                    self.awaits_completion = false;
                    AggregatorAction::Continue
                },
                AggregatorEvent::ChannelClosed => {
                    self.phase = AggregatorPhase::Broken;
                    AggregatorAction::Fail
                },
            },
            AggregatorPhase::Broken => AggregatorAction::Fail,
            _ => AggregatorAction::Finish,
        }
    }

    /// What was collected so far.
    pub fn data(&self) -> (data: &ClauseMap)
        requires
            self.wf(),
        ensures
            data.wf(),
            data.entries() == self@.entries,
    {
        &self.data
    }

    /// Gives up the aggregator for what it collected.
    pub fn into_data(self) -> (data: ClauseMap)
        requires
            self.wf(),
        ensures
            data.wf(),
            data.entries() == self@.entries,
    {
        self.data
    }

    /// The report of what was collected so far.
    pub fn report(&self) -> (rows: Vec<ReportRow>)
        requires
            self.wf(),
        ensures
            rows_of(rows@) == report_of(self@.entries),
    {
        self.data.report()
    }
}

/// Dropping the last event of a run does not stop a run that goes on.
proof fn lemma_stopped_drop_last(events: Seq<Event>)
    requires
        events.len() > 0,
    ensures
        stopped(events) <==> stopped(events.drop_last()) || ends_collection(events.last()),
{
    let head = events.drop_last();
    if stopped(events) {
        let i = choose|i: int| 0 <= i < events.len() && ends_collection(#[trigger] events[i]);
        if i < head.len() {
            assert(ends_collection(head[i]));
        }
    }
    if stopped(head) {
        let i = choose|i: int| 0 <= i < head.len() && ends_collection(#[trigger] head[i]);
        assert(ends_collection(events[i]));
    }
    if ends_collection(events.last()) {
        assert(ends_collection(events[events.len() - 1]));
    }
}

/// What the aggregator holds after a run of events is what the
/// measurements up to the first interrupt, completion signal or loss of the
/// queue add up to; the loss of the supervisor, before or between them,
/// takes nothing away. What arrives later changes nothing, and the aggregator
/// is still collecting only if no such event has arrived.
pub proof fn lemma_run_collects_until_stop(events: Seq<Event>)
    ensures
        AggregatorModel::initial().run(events).entries == aggregate_entries(
            records_until_stop(events),
        ),
        map_of(AggregatorModel::initial().run(events).entries) == aggregate(
            records_until_stop(events),
        ),
        AggregatorModel::initial().run(events).phase == AggregatorPhase::Collecting <==> !stopped(
            events,
        ),
    decreases events.len(),
{
    if events.len() > 0 {
        lemma_run_collects_until_stop(events.drop_last());
        lemma_stopped_drop_last(events);
        let records = records_until_stop(events);
        if !stopped(events.drop_last()) && events.last() is Record {
            assert(records.drop_last() =~= records_until_stop(events.drop_last()));
        }
    }
    lemma_aggregate_entries_is_aggregate(records_until_stop(events));
}

/// A run that ends at once, before any measurement, has nothing to report.
pub proof fn lemma_immediate_stop_reports_nothing(events: Seq<Event>)
    requires
        events.len() > 0,
        ends_collection(events[0]),
    ensures
        AggregatorModel::initial().run(events).entries == Seq::<Entry>::empty(),
        report_of(AggregatorModel::initial().run(events).entries) == Seq::<Row>::empty(),
        AggregatorModel::initial().run(events).phase != AggregatorPhase::Collecting,
    decreases events.len(),
{
    lemma_run_collects_until_stop(events);
    lemma_no_records_after_stop(events);
}

/// After an event that ends the collection at the very start, no
/// measurement counts.
proof fn lemma_no_records_after_stop(events: Seq<Event>)
    requires
        events.len() > 0,
        ends_collection(events[0]),
    ensures
        records_until_stop(events) == Seq::<Record>::empty(),
        stopped(events),
    decreases events.len(),
{
    let head = events.drop_last();
    if head.len() > 0 {
        assert(head[0] == events[0]);
        lemma_no_records_after_stop(head);
    } else {
        assert(events.last() == events[0]);
        assert(records_until_stop(head) =~= Seq::<Record>::empty());
    }
    lemma_stopped_drop_last(events);
}

/// The order in which the measurements of a run arrive does not matter to
/// the map that the aggregator holds: two runs in which the collection goes
/// on, with the same measurements in each and as often, leave the same map.
pub proof fn lemma_run_order_independent(a: Seq<Event>, b: Seq<Event>)
    requires
        !stopped(a),
        !stopped(b),
        records_until_stop(a).to_multiset() == records_until_stop(b).to_multiset(),
    ensures
        map_of(AggregatorModel::initial().run(a).entries) == map_of(
            AggregatorModel::initial().run(b).entries,
        ),
{
    lemma_run_collects_until_stop(a);
    lemma_run_collects_until_stop(b);
    lemma_aggregate_order_independent(records_until_stop(a), records_until_stop(b));
}

} // verus!
