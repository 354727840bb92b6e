//! Per-system timing statistics.
//!
//! Durations are carried as whole nanoseconds (`u128`), the exact value of a
//! `std::time::Duration`; the largest duration is `DURATION_MAX_NANOS`.
use std::time::Duration;
use std::time::Instant;
use vstd::prelude::*;
use vstd::utf8::encode_utf8;

verus! {

/// Nanoseconds in `Duration::MAX` (`u64::MAX` seconds and 999,999,999 ns).
pub const DURATION_MAX_NANOS: u128 = 18_446_744_073_709_551_615_999_999_999u128;

/// Timing statistics for a single system or the overall tick.
#[derive(Debug, Clone, Copy, PartialEq, Eq, Structural)]
pub struct SystemTiming {
    /// Shortest recorded duration (`DURATION_MAX_NANOS` before any record).
    pub min: u128,
    /// Longest recorded duration.
    pub max: u128,
    /// Sum of all recorded durations.
    pub total: u128,
    /// Number of recorded durations.
    pub count: u64,
    /// Most recent measurement.
    pub last: u128,
}

/// The timing before any measurement.
pub open spec fn timing_default() -> SystemTiming {
    SystemTiming { min: DURATION_MAX_NANOS, max: 0, total: 0, count: 0, last: 0 }
}

/// Whether a duration of `d` nanoseconds can be recorded: it is a duration,
/// and the count has room for one more.
pub open spec fn can_record(t: SystemTiming, d: u128) -> bool {
    &&& d <= DURATION_MAX_NANOS
    &&& t.count < u64::MAX
}

/// `a + b`, capped at the largest duration.
pub open spec fn saturated_sum(a: u128, b: u128) -> u128 {
    if a + b <= DURATION_MAX_NANOS {
        (a + b) as u128
    } else {
        DURATION_MAX_NANOS
    }
}

/// The timing after recording a duration of `d` nanoseconds.
pub open spec fn timing_recorded(t: SystemTiming, d: u128) -> SystemTiming {
    SystemTiming {
        min: if d < t.min {
            d
        } else {
            t.min
        },
        max: if d > t.max {
            d
        } else {
            t.max
        },
        total: saturated_sum(t.total, d),
        count: (t.count + 1) as u64,
        last: d,
    }
}

/// The average of a timing: the total divided by the count, rounded down;
/// zero when nothing was recorded.
pub open spec fn timing_avg(t: SystemTiming) -> u128 {
    if t.count == 0 {
        0
    } else {
        t.total / (t.count as u128)
    }
}

impl Default for SystemTiming {
    /// No measurements: min is the largest duration, everything else zero.
    fn default() -> (t: Self)
        ensures
            t == timing_default(),
    {
        SystemTiming { min: DURATION_MAX_NANOS, max: 0, total: 0, count: 0, last: 0 }
    }
}

impl SystemTiming {
    /// Record a new duration measurement (in nanoseconds). The total stops
    /// at the largest duration.
    pub fn record(&mut self, duration: u128)
        requires
            can_record(*old(self), duration),
        ensures
            *final(self) == timing_recorded(*old(self), duration),
    {
        self.last = duration;
        if self.total <= DURATION_MAX_NANOS - duration {
            self.total = self.total + duration;
        } else {
            self.total = DURATION_MAX_NANOS;
        }
        self.count = self.count + 1;
        if duration < self.min {
            self.min = duration;
        }
        if duration > self.max {
            self.max = duration;
        }
    }

    /// Average duration over all recorded samples (zero before any).
    pub fn avg(&self) -> (a: u128)
        ensures
            a == timing_avg(*self),
    {
        if self.count == 0 {
            0
        } else {
            self.total / (self.count as u128)
        }
    }

    /// Reset all statistics.
    pub fn reset(&mut self)
        ensures
            *final(self) == timing_default(),
    {
        *self = SystemTiming::default();
    }
}

/// Whether the recorded durations lie within [min, max] and sum to total:
/// the state that recording from the default keeps.
pub open spec fn timing_consistent(t: SystemTiming) -> bool {
    &&& t.count == 0 ==> t == timing_default()
    &&& t.count > 0 ==> t.min <= t.last <= t.max && t.min <= t.max
    &&& t.count > 0 ==> t.count * t.min <= t.total <= t.count * t.max
}

/// Law: recording keeps a timing consistent: min <= last <= max, and the
/// total lies between count * min and count * max (while the total has not
/// reached the largest duration).
pub proof fn law_record_keeps_consistent(t: SystemTiming, d: u128)
    requires
        timing_consistent(t),
        can_record(t, d),
        t.total + d <= DURATION_MAX_NANOS,
    ensures
        timing_consistent(timing_recorded(t, d)),
{
    let r = timing_recorded(t, d);
    if t.count > 0 {
        assert(r.count * r.min <= r.total) by (nonlinear_arith)
            requires
                r.count == t.count + 1,
                r.min <= d,
                r.min <= t.min,
                t.count * t.min <= t.total,
                r.total == t.total + d,
                r.min >= 0,
        ;
        assert(r.total <= r.count * r.max) by (nonlinear_arith)
            requires
                r.count == t.count + 1,
                r.max >= d,
                r.max >= t.max,
                t.total <= t.count * t.max,
                r.total == t.total + d,
        ;
    }
}

/// Law: the average of a consistent timing that holds a record lies
/// between its min and max.
pub proof fn law_avg_within_bounds(t: SystemTiming)
    requires
        timing_consistent(t),
        0 < t.count,
    ensures
        t.min <= timing_avg(t) <= t.max,
{
    let c = t.count as int;
    let q = t.total as int / c;
    assert(q * c <= t.total as int && (t.total as int) < (q + 1) * c) by (nonlinear_arith)
        requires
            c > 0,
            q == t.total as int / c,
    ;
    assert(t.min as int <= q) by (nonlinear_arith)
        requires
            c * t.min <= t.total as int,
            (t.total as int) < (q + 1) * c,
            c > 0,
    ;
    assert(q <= t.max as int) by (nonlinear_arith)
        requires
            q * c <= t.total as int,
            t.total as int <= c * t.max,
            c > 0,
    ;
}

/// Tracks per-system timing statistics across ticks.
///
/// `systems` holds one entry per system name, in order of first record.
#[derive(Debug, Clone)]
pub struct PerformanceStats {
    /// Per-system timing data: (system name, timing).
    pub systems: Vec<(&'static str, SystemTiming)>,
    /// Total tick durations (wall clock per tick).
    pub tick_timing: SystemTiming,
    /// Number of entities at last measurement.
    pub last_entity_count: u32,
    /// Whether to print stats to the log.
    pub enabled: bool,
    /// How often (in ticks) to log a summary.
    pub log_interval: u64,
}

/// The names of a list of system entries.
pub open spec fn system_names(systems: Seq<(&'static str, SystemTiming)>) -> Seq<Seq<char>> {
    systems.map_values(|e: (&'static str, SystemTiming)| e.0@)
}

/// The system entries after recording `d` for `name`: the entry for `name`
/// is updated, or a new entry is appended if there is none.
pub open spec fn systems_recorded(
    systems: Seq<(&'static str, SystemTiming)>,
    name: &'static str,
    d: u128,
) -> Seq<(&'static str, SystemTiming)> {
    if system_names(systems).contains(name@) {
        let i = system_names(systems).index_of(name@);
        systems.update(i, (systems[i].0, timing_recorded(systems[i].1, d)))
    } else {
        systems.push((name, timing_recorded(timing_default(), d)))
    }
}

/// The timing recorded for `name`; the default timing when there is none.
pub open spec fn timing_of(systems: Seq<(&'static str, SystemTiming)>, name: &'static str) -> SystemTiming {
    if system_names(systems).contains(name@) {
        systems[system_names(systems).index_of(name@)].1
    } else {
        timing_default()
    }
}

/// Whether `d` can be recorded for `name`: it is a duration, and the
/// system's count has room for one more.
pub open spec fn can_record_system(
    systems: Seq<(&'static str, SystemTiming)>,
    name: &'static str,
    d: u128,
) -> bool {
    can_record(timing_of(systems, name), d)
}

/// A point in time of std's monotonic clock, carried opaquely.
#[verifier::external_type_specification]
#[verifier::external_body]
pub struct ExInstant(std::time::Instant);

/// Equality of two system names, compared byte by byte.
fn names_equal(a: &str, b: &str) -> (r: bool)
    ensures
        r == (a@ == b@),
{
    broadcast use vstd::utf8::encode_utf8_decode_utf8;

    let x = a.as_bytes();
    let y = b.as_bytes();
    proof {
        assert(vstd::utf8::decode_utf8(encode_utf8(a@)) == a@);
        assert(vstd::utf8::decode_utf8(encode_utf8(b@)) == b@);
    }
    if x.len() != y.len() {
        return false;
    }
    let mut i: usize = 0;
    while i < x.len()
        invariant
            x@ == encode_utf8(a@),
            y@ == encode_utf8(b@),
            x@.len() == y@.len(),
            i <= x@.len(),
            forall|j: int| 0 <= j < i ==> x@[j] == y@[j],
        decreases x@.len() - i,
    {
        if x[i] != y[i] {
            return false;
        }
        i = i + 1;
    }
    assert(x@ =~= y@);
    true
}

/// The current instant.
///
/// Trusted: calls `Instant::now` of std; nothing is claimed of the result.
#[verifier::external_body]
fn instant_now() -> Instant {
    Instant::now()
}

/// Time elapsed since `start`.
///
/// Trusted: calls `Instant::elapsed` of std; nothing is claimed of the result,
/// which depends on the clock.
#[verifier::external_body]
fn instant_elapsed(start: &Instant) -> Duration {
    start.elapsed()
}

/// Whole nanoseconds of a duration.
///
/// Trusted: calls `Duration::as_nanos` of std; a duration is at most
/// `Duration::MAX`, `u64::MAX` seconds and 999,999,999 nanoseconds.
#[verifier::external_body]
fn duration_nanos(d: Duration) -> (n: u128)
    ensures
        n <= DURATION_MAX_NANOS,
{
    d.as_nanos()
}

impl PerformanceStats {
    /// No system appears twice.
    pub open spec fn wf(&self) -> bool {
        system_names(self.systems@).no_duplicates()
    }

    /// Empty statistics, logged every 100 ticks when enabled.
    pub fn new(enabled: bool) -> (s: Self)
        ensures
            s.systems@ == Seq::<(&'static str, SystemTiming)>::empty(),
            s.tick_timing == timing_default(),
            s.last_entity_count == 0,
            s.enabled == enabled,
            s.log_interval == 100,
            s.wf(),
    {
        let s = PerformanceStats {
            systems: Vec::new(),
            tick_timing: SystemTiming::default(),
            last_entity_count: 0,
            enabled,
            log_interval: 100,
        };
        assert(system_names(s.systems@) =~= Seq::<Seq<char>>::empty());
        s
    }

    /// The timing recorded for a system, if any.
    pub fn system(&self, name: &str) -> (t: Option<SystemTiming>)
        requires
            self.wf(),
        ensures
            system_names(self.systems@).contains(name@) ==> t == Some(
                self.systems@[system_names(self.systems@).index_of(name@)].1,
            ),
            !system_names(self.systems@).contains(name@) ==> t is None,
    {
        match self.find(name) {
            Some(i) => Some(self.systems[i].1),
            None => None,
        }
    }

    /// Position of a system's entry.
    fn find(&self, name: &str) -> (r: Option<usize>)
        requires
            self.wf(),
        ensures
            r is Some <==> system_names(self.systems@).contains(name@),
            r matches Some(i) ==> i == system_names(self.systems@).index_of(name@) && i
                < self.systems@.len(),
    {
        let ghost names = system_names(self.systems@);
        let mut i: usize = 0;
        while i < self.systems.len()
            invariant
                i <= self.systems@.len(),
                names == system_names(self.systems@),
                names.no_duplicates(),
                forall|j: int| 0 <= j < i ==> names[j] != name@,
            decreases self.systems@.len() - i,
        {
            if names_equal(self.systems[i].0, name) {
                proof {
                    assert(names[i as int] == name@);
                    assert(names.contains(name@));
                    let k = names.index_of(name@);
                    assert(names[k] == name@);
                    if k != i {
                        assert(names.no_duplicates());
                    }
                }
                return Some(i);
            }
            i = i + 1;
        }
        proof {
            if names.contains(name@) {
                let k = names.index_of(name@);
                assert(names[k] == name@);
            }
        }
        None
    }

    /// Record the duration (nanoseconds) of a system execution.
    pub fn record_system(&mut self, name: &'static str, duration: u128)
        requires
            old(self).wf(),
            can_record_system(old(self).systems@, name, duration),
        ensures
            final(self).systems@ == systems_recorded(old(self).systems@, name, duration),
            final(self).tick_timing == old(self).tick_timing,
            final(self).last_entity_count == old(self).last_entity_count,
            final(self).enabled == old(self).enabled,
            final(self).log_interval == old(self).log_interval,
            final(self).wf(),
    {
        let ghost old_names = system_names(self.systems@);
        match self.find(name) {
            Some(i) => {
                let mut t = self.systems[i].1;
                t.record(duration);
                let n = self.systems[i].0;
                self.systems.set(i, (n, t));
                proof {
                    assert(system_names(self.systems@) =~= old_names);
                }
            },
            None => {
                let mut t = SystemTiming::default();
                t.record(duration);
                self.systems.push((name, t));
                proof {
                    assert(system_names(self.systems@) =~= old_names.push(name@));
                }
            },
        }
    }

    /// Record a measured duration (nanoseconds) of a system: recorded when
    /// it can be, that is when it is a duration and the system's count has
    /// room for one more; otherwise nothing changes.
    pub fn record_measured(&mut self, name: &'static str, d: u128)
        requires
            old(self).wf(),
        ensures
            final(self).systems@ == (if can_record_system(old(self).systems@, name, d) {
                systems_recorded(old(self).systems@, name, d)
            } else {
                old(self).systems@
            }),
            final(self).tick_timing == old(self).tick_timing,
            final(self).last_entity_count == old(self).last_entity_count,
            final(self).enabled == old(self).enabled,
            final(self).log_interval == old(self).log_interval,
            final(self).wf(),
    {
        let count = match self.find(name) {
            Some(i) => self.systems[i].1.count,
            None => 0,
        };
        if d <= DURATION_MAX_NANOS && count < u64::MAX {
            self.record_system(name, d);
        }
    }

    /// The system entries, most expensive (highest average) first.
    pub fn systems_by_cost(&self) -> (sorted: Vec<(&'static str, SystemTiming)>)
        ensures
            sorted@.to_multiset() == self.systems@.to_multiset(),
            forall|i: int, j: int|
                0 <= i < j < sorted@.len() ==> timing_avg(#[trigger] sorted@[i].1) >= timing_avg(
                    #[trigger] sorted@[j].1,
                ),
    {
        broadcast use vstd::seq_lib::group_to_multiset_ensures;

        let mut sorted: Vec<(&'static str, SystemTiming)> = Vec::new();
        let mut k: usize = 0;
        while k < self.systems.len()
            invariant
                k <= self.systems@.len(),
                sorted@.to_multiset() == self.systems@.take(k as int).to_multiset(),
                forall|i: int, j: int|
                    0 <= i < j < sorted@.len() ==> timing_avg(#[trigger] sorted@[i].1) >= timing_avg(
                        #[trigger] sorted@[j].1,
                    ),
            decreases self.systems@.len() - k,
        {
            let entry = self.systems[k];
            let a = entry.1.avg();
            let mut pos: usize = 0;
            while pos < sorted.len() && sorted[pos].1.avg() >= a
                invariant
                    pos <= sorted@.len(),
                    forall|i: int| 0 <= i < pos ==> timing_avg(#[trigger] sorted@[i].1) >= a,
                decreases sorted@.len() - pos,
            {
                pos = pos + 1;
            }
            let ghost before = sorted@;
            sorted.insert(pos, entry);
            proof {
                assert(self.systems@.take(k + 1) =~= self.systems@.take(k as int).push(entry));
                vstd::seq_lib::to_multiset_insert(before, pos as int, entry);
                vstd::seq_lib::to_multiset_build(self.systems@.take(k as int), entry);
                assert(pos < before.len() ==> timing_avg(before[pos as int].1) < a);
                assert forall|i: int, j: int|
                    0 <= i < j < sorted@.len() implies timing_avg(#[trigger] sorted@[i].1) >= timing_avg(
                        #[trigger] sorted@[j].1,
                    ) by {
                    if i < pos && j == pos {
                    } else if i < pos && j > pos {
                        assert(sorted@[j] == before[j - 1]);
                    } else if i == pos {
                        assert(sorted@[j] == before[j - 1]);
                        if pos < before.len() {
                            assert(timing_avg(before[j - 1].1) <= timing_avg(before[pos as int].1));
                        }
                    } else if j < pos {
                        assert(sorted@[i] == before[i]);
                        assert(sorted@[j] == before[j]);
                    } else {
                        assert(sorted@[i] == before[i - 1]);
                        assert(sorted@[j] == before[j - 1]);
                    }
                }
            }
            k = k + 1;
        }
        proof {
            assert(self.systems@.take(k as int) =~= self.systems@);
        }
        sorted
    }

    /// Record the overall tick duration (nanoseconds).
    pub fn record_tick(&mut self, duration: u128)
        requires
            can_record(old(self).tick_timing, duration),
        ensures
            final(self).tick_timing == timing_recorded(old(self).tick_timing, duration),
            final(self).systems@ == old(self).systems@,
            final(self).last_entity_count == old(self).last_entity_count,
            final(self).enabled == old(self).enabled,
            final(self).log_interval == old(self).log_interval,
    {
        self.tick_timing.record(duration);
    }

    /// Reset all statistics (the settings stay).
    pub fn reset(&mut self)
        ensures
            final(self).systems@ == Seq::<(&'static str, SystemTiming)>::empty(),
            final(self).tick_timing == timing_default(),
            final(self).last_entity_count == old(self).last_entity_count,
            final(self).enabled == old(self).enabled,
            final(self).log_interval == old(self).log_interval,
            final(self).wf(),
    {
        self.systems.clear();
        self.tick_timing.reset();
        assert(system_names(self.systems@) =~= Seq::<Seq<char>>::empty());
    }
}

/// Recording `d` for `name` adds one to that system's count.
proof fn lemma_recorded_count(systems: Seq<(&'static str, SystemTiming)>, name: &'static str, d: u128)
    requires
        system_names(systems).no_duplicates(),
        can_record_system(systems, name, d),
    ensures
        timing_of(systems_recorded(systems, name, d), name).count == timing_of(systems, name).count
            + 1,
{
    let names = system_names(systems);
    let after = systems_recorded(systems, name, d);
    if names.contains(name@) {
        let i = names.index_of(name@);
        assert(names[i] == name@);
        assert(system_names(after) =~= names);
        assert(system_names(after).index_of(name@) == i);
    } else {
        assert(system_names(after) =~= names.push(name@));
        let k = system_names(after).index_of(name@);
        assert(system_names(after)[names.len() as int] == name@);
        assert(system_names(after).contains(name@));
        if k != names.len() {
            assert(system_names(after)[k] == name@);
            assert(names[k] == name@);
        }
    }
}

/// The statistics after timing `name` at `d` nanoseconds: recorded when the
/// totals have room for it, else unchanged.
pub open spec fn timed_outcome(
    before: PerformanceStats,
    after: Option<PerformanceStats>,
    name: &'static str,
    d: u128,
) -> bool {
    &&& d <= DURATION_MAX_NANOS
    &&& after matches Some(t)
    &&& t.wf()
    &&& t.tick_timing == before.tick_timing
    &&& t.last_entity_count == before.last_entity_count
    &&& t.enabled == before.enabled
    &&& t.log_interval == before.log_interval
    &&& t.systems@ == (if can_record_system(before.systems@, name, d) {
        systems_recorded(before.systems@, name, d)
    } else {
        before.systems@
    })
}

/// Run `f`, and when `stats` is present and enabled, record how long it took
/// under `name`. Returns the result of `f`.
///
/// The elapsed time comes from the clock; whatever it is, it is recorded
/// (the total stops at the largest duration), unless the system's count is
/// already at its maximum, in which case the statistics are left as they
/// were.
pub fn time_system<F, R>(stats: &mut Option<PerformanceStats>, name: &'static str, f: F) -> (r: R) where
    F: FnOnce() -> R,

    requires
        f.requires(()),
        *old(stats) matches Some(s) ==> s.wf(),
    ensures
        f.ensures((), r),
        *old(stats) is None ==> *final(stats) is None,
        *old(stats) matches Some(s) && !s.enabled ==> *final(stats) == *old(stats),
        *old(stats) matches Some(s) && s.enabled ==> exists|d: u128|
            #![trigger timed_outcome(old(stats).unwrap(), *final(stats), name, d)]
            timed_outcome(old(stats).unwrap(), *final(stats), name, d),
        *old(stats) matches Some(s) && s.enabled && timing_of(s.systems@, name).count < u64::MAX
            ==> (*final(stats) matches Some(t) && timing_of(t.systems@, name).count == timing_of(
            old(stats).unwrap().systems@,
            name,
        ).count + 1),
{
    let taken = stats.take();
    match taken {
        Some(mut s) => {
            if s.enabled {
                let start = instant_now();
                let result = f();
                let d = duration_nanos(instant_elapsed(&start));
                let ghost before = s;
                s.record_measured(name, d);
                proof {
                    if can_record_system(before.systems@, name, d) {
                        lemma_recorded_count(before.systems@, name, d);
                    }
                }
                *stats = Some(s);
                assert(timed_outcome(before, *stats, name, d));
                return result;
            }
            *stats = Some(s);
            f()
        },
        None => f(),
    }
}

} // verus!
