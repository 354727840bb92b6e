//! The event log of a tick and per-tick event summaries.
use crate::events::types::{kind_of, SimEvent, SimEventKind};
use vstd::prelude::*;

verus! {

/// The events produced during a tick, in the order they happened.
#[derive(Debug)]
pub struct EventLog<E> {
    events: Vec<E>,
}

impl<E> EventLog<E> {
    /// The logged events.
    pub closed spec fn logged(&self) -> Seq<E> {
        self.events@
    }

    /// An empty log.
    pub fn new() -> (log: Self)
        ensures
            log.logged() == Seq::<E>::empty(),
    {
        EventLog { events: Vec::new() }
    }

    /// Log an event.
    pub fn push(&mut self, event: E)
        ensures
            final(self).logged() == old(self).logged().push(event),
    {
        self.events.push(event);
    }

    /// The logged events.
    pub fn events(&self) -> (s: &[E])
        ensures
            s@ == self.logged(),
    {
        self.events.as_slice()
    }

    /// Number of logged events.
    pub fn len(&self) -> (n: usize)
        ensures
            n == self.logged().len(),
    {
        self.events.len()
    }

    /// Whether nothing is logged.
    pub fn is_empty(&self) -> (r: bool)
        ensures
            r == (self.logged().len() == 0),
    {
        self.events.len() == 0
    }

    /// Take every logged event out, leaving the log empty.
    pub fn drain(&mut self) -> (out: Vec<E>)
        ensures
            out@ == old(self).logged(),
            final(self).logged() == Seq::<E>::empty(),
    {
        let mut out: Vec<E> = Vec::new();
        std::mem::swap(&mut out, &mut self.events);
        out
    }

    /// Forget every logged event.
    pub fn clear(&mut self)
        ensures
            final(self).logged() == Seq::<E>::empty(),
    {
        self.events.clear();
    }
}

/// Summary statistics for a single tick.
#[derive(Debug, Clone, Copy, PartialEq, Eq, Structural)]
pub struct TickSummary {
    pub tick: u64,
    pub event_count: usize,
    pub entity_count: u32,
    pub births: usize,
    pub deaths: usize,
    pub feedings: usize,
}

/// What an event of a kind counts as in a tick summary.
#[derive(Debug, Clone, Copy, PartialEq, Eq, Structural)]
pub enum SummaryClass {
    Birth,
    Death,
    Feeding,
    Other,
}

/// Spawns and reproductions are births; deaths and feedings count apart.
pub open spec fn class_of(k: SimEventKind) -> SummaryClass {
    match k {
        SimEventKind::EntitySpawned | SimEventKind::EntityReproduced => SummaryClass::Birth,
        SimEventKind::EntityDied => SummaryClass::Death,
        SimEventKind::EntityAte => SummaryClass::Feeding,
        _ => SummaryClass::Other,
    }
}

/// The number of events in `kinds` of the summary class `c`.
pub open spec fn count_class(kinds: Seq<SimEventKind>, c: SummaryClass) -> nat
    decreases kinds.len(),
{
    if kinds.len() == 0 {
        0
    } else {
        count_class(kinds.drop_last(), c) + (if class_of(kinds.last()) == c {
            1nat
        } else {
            0nat
        })
    }
}

/// Law: the summary classes split the events, so their counts add up to the
/// number of events.
pub proof fn law_summary_classes_partition(kinds: Seq<SimEventKind>)
    ensures
        count_class(kinds, SummaryClass::Birth) + count_class(kinds, SummaryClass::Death) + count_class(
            kinds,
            SummaryClass::Feeding,
        ) + count_class(kinds, SummaryClass::Other) == kinds.len(),
    decreases kinds.len(),
{
    if kinds.len() > 0 {
        law_summary_classes_partition(kinds.drop_last());
    }
}

/// The kinds of a list of events.
pub open spec fn kinds_of(events: Seq<SimEvent>) -> Seq<SimEventKind> {
    events.map_values(|e: SimEvent| kind_of(e))
}

impl TickSummary {
    /// Summarize a tick's events: spawns and reproductions are births,
    /// deaths and feedings are counted apart.
    pub fn from_events(tick: u64, entity_count: u32, events: &[SimEvent]) -> (s: Self)
        ensures
            s.tick == tick,
            s.entity_count == entity_count,
            s.event_count == events@.len(),
            s.births == count_class(kinds_of(events@), SummaryClass::Birth),
            s.deaths == count_class(kinds_of(events@), SummaryClass::Death),
            s.feedings == count_class(kinds_of(events@), SummaryClass::Feeding),
    {
        let mut births: usize = 0;
        let mut deaths: usize = 0;
        let mut feedings: usize = 0;
        let n = events.len();
        let ghost kinds = kinds_of(events@);
        for i in 0..n
            invariant
                n == events@.len(),
                kinds == kinds_of(events@),
                births == count_class(kinds.take(i as int), SummaryClass::Birth),
                deaths == count_class(kinds.take(i as int), SummaryClass::Death),
                feedings == count_class(kinds.take(i as int), SummaryClass::Feeding),
        {
            proof {
                assert(kinds.take(i + 1).drop_last() =~= kinds.take(i as int));
                assert(kinds.take(i + 1).last() == kind_of(events@[i as int]));
                law_summary_classes_partition(kinds.take(i as int));
            }
            match events[i].kind() {
                SimEventKind::EntitySpawned | SimEventKind::EntityReproduced => births = births + 1,
                SimEventKind::EntityDied => deaths = deaths + 1,
                SimEventKind::EntityAte => feedings = feedings + 1,
                _ => {},
            }
        }
        assert(kinds.take(n as int) =~= kinds);
        TickSummary { tick, event_count: n, entity_count, births, deaths, feedings }
    }
}

} // verus!
