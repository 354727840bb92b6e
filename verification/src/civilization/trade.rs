//! Trade routes between settlements.
use std::collections::HashMap;
use vstd::prelude::*;

verus! {

/// A detected trade route between two settlements.
#[derive(Debug, Clone)]
pub struct TradeRoute {
    /// Settlement ID of the origin.
    pub from_settlement: u64,
    /// Settlement ID of the destination.
    pub to_settlement: u64,
    /// Resource type being traded (if known).
    pub resource_type: Option<String>,
    /// Cumulative volume of resources transported.
    pub volume: u64,
    /// Number of entity trips observed on this route.
    pub trip_count: u64,
    /// Last tick this route was active.
    pub last_active_tick: u64,
}

/// A route last active at `last` is active at `current` when at most
/// `max_age` ticks have passed (no time passes before `last`).
pub open spec fn active_at(last: u64, current: u64, max_age: u64) -> bool {
    (if current >= last {
        current - last
    } else {
        0
    }) <= max_age
}

/// The canonical key of a route between `a` and `b`: the smaller ID first.
pub open spec fn route_key_of(a: u64, b: u64) -> (u64, u64) {
    if a <= b {
        (a, b)
    } else {
        (b, a)
    }
}

impl TradeRoute {
    /// Create a new trade route, last active at `tick`, with no trips yet.
    pub fn new(from_settlement: u64, to_settlement: u64, tick: u64) -> (r: Self)
        ensures
            r.from_settlement == from_settlement,
            r.to_settlement == to_settlement,
            r.resource_type is None,
            r.volume == 0,
            r.trip_count == 0,
            r.last_active_tick == tick,
    {
        TradeRoute {
            from_settlement,
            to_settlement,
            resource_type: None,
            volume: 0,
            trip_count: 0,
            last_active_tick: tick,
        }
    }

    /// Record a trip along this route: one more trip, `amount` more volume,
    /// active at `tick`, and the resource type if one is given.
    pub fn record_trip(&mut self, resource_type: Option<&str>, amount: u64, tick: u64)
        requires
            old(self).trip_count < u64::MAX,
            old(self).volume + amount <= u64::MAX,
        ensures
            final(self).trip_count == old(self).trip_count + 1,
            final(self).volume == old(self).volume + amount,
            final(self).last_active_tick == tick,
            final(self).from_settlement == old(self).from_settlement,
            final(self).to_settlement == old(self).to_settlement,
            resource_type is None ==> final(self).resource_type == old(self).resource_type,
            resource_type matches Some(rt) ==> final(self).resource_type matches Some(s) && s@ == rt@,
    {
        self.trip_count = self.trip_count + 1;
        self.volume = self.volume + amount;
        self.last_active_tick = tick;
        if let Some(rt) = resource_type {
            self.resource_type = Some(rt.to_owned());
        }
    }

    /// Whether this route has been active within the last `max_age` ticks.
    pub fn is_active(&self, current_tick: u64, max_age: u64) -> (r: bool)
        ensures
            r == active_at(self.last_active_tick, current_tick, max_age),
    {
        current_tick.saturating_sub(self.last_active_tick) <= max_age
    }

    /// Canonical key for this route (sorted pair of settlement IDs).
    pub fn route_key(&self) -> (k: (u64, u64))
        ensures
            k == route_key_of(self.from_settlement, self.to_settlement),
    {
        let a = if self.from_settlement <= self.to_settlement {
            self.from_settlement
        } else {
            self.to_settlement
        };
        let b = if self.from_settlement <= self.to_settlement {
            self.to_settlement
        } else {
            self.from_settlement
        };
        (a, b)
    }
}

/// Law: a route's key does not depend on its direction, and lists the smaller
/// settlement first.
pub proof fn law_route_key_symmetric(a: u64, b: u64)
    ensures
        route_key_of(a, b) == route_key_of(b, a),
        route_key_of(a, b).0 <= route_key_of(a, b).1,
{
}

/// Law: a route is active at the tick of its last recorded trip, whatever the
/// maximum age.
pub proof fn law_active_after_trip(tick: u64, max_age: u64)
    ensures
        active_at(tick, tick, max_age),
{
}

/// Record of an entity's position for movement tracking.
#[derive(Debug, Clone, Copy, PartialEq, Eq, Structural)]
pub struct EntityMovementRecord {
    pub entity_id: u64,
    /// Settlement ID the entity was last near (if any).
    pub last_settlement_id: Option<u64>,
    /// Whether the entity is carrying items.
    pub carrying_items: bool,
}

/// The movement record of an entity before an observation: the stored one,
/// or a fresh record near no settlement and carrying nothing.
pub open spec fn record_before(records: Map<u64, EntityMovementRecord>, entity_id: u64) -> EntityMovementRecord {
    if records.contains_key(entity_id) {
        records[entity_id]
    } else {
        EntityMovementRecord { entity_id, last_settlement_id: None, carrying_items: false }
    }
}

/// Whether an observation completes a trade trip: the entity was near one
/// settlement, carrying items, and is now near another.
pub open spec fn completes_trip(before: EntityMovementRecord, current_settlement: Option<u64>) -> bool {
    &&& before.last_settlement_id is Some
    &&& current_settlement is Some
    &&& before.last_settlement_id->0 != current_settlement->0
    &&& before.carrying_items
}

/// The route after one more observed trip on it: the stored route, or a new
/// route from the previous settlement to the current one created at `tick`,
/// with one more trip of volume 1, active at `tick`.
pub open spec fn route_after_trip(
    routes: Map<(u64, u64), TradeRoute>,
    from: u64,
    to: u64,
    tick: u64,
) -> TradeRoute {
    let key = route_key_of(from, to);
    let r = if routes.contains_key(key) {
        routes[key]
    } else {
        TradeRoute {
            from_settlement: from,
            to_settlement: to,
            resource_type: None,
            volume: 0,
            trip_count: 0,
            last_active_tick: tick,
        }
    };
    TradeRoute {
        trip_count: (r.trip_count + 1) as u64,
        volume: (r.volume + 1) as u64,
        last_active_tick: tick,
        ..r
    }
}

/// Law: a trip makes its route active at the trip's tick, whatever the
/// maximum age, and counts one more trip of volume 1: on a route already
/// stored, one more than it had, its endpoints kept; on a new route, the
/// first, from the previous settlement to the current one.
pub proof fn law_trip_activates_route(
    routes: Map<(u64, u64), TradeRoute>,
    from: u64,
    to: u64,
    tick: u64,
    max_age: u64,
)
    requires
        trip_fits(routes, from, to),
    ensures
        route_after_trip(routes, from, to, tick).last_active_tick == tick,
        active_at(route_after_trip(routes, from, to, tick).last_active_tick, tick, max_age),
        routes.contains_key(route_key_of(from, to)) ==> {
            let old = routes[route_key_of(from, to)];
            let new = route_after_trip(routes, from, to, tick);
            &&& new.trip_count == old.trip_count + 1
            &&& new.volume == old.volume + 1
            &&& new.from_settlement == old.from_settlement
            &&& new.to_settlement == old.to_settlement
        },
        !routes.contains_key(route_key_of(from, to)) ==> {
            let new = route_after_trip(routes, from, to, tick);
            &&& new.trip_count == 1
            &&& new.volume == 1
            &&& new.from_settlement == from
            &&& new.to_settlement == to
        },
{
}

/// Whether the route between two settlements has room for one more trip.
pub open spec fn trip_fits(routes: Map<(u64, u64), TradeRoute>, from: u64, to: u64) -> bool {
    routes.contains_key(route_key_of(from, to)) ==> {
        &&& routes[route_key_of(from, to)].trip_count < u64::MAX
        &&& routes[route_key_of(from, to)].volume < u64::MAX
    }
}

/// Take the route stored under `key` out of the map.
///
/// Trusted: calls `HashMap::remove` of std, which returns the value stored
/// under the key, if any, and leaves the map without it. Pairs of `u64` are
/// compared and hashed by their fields.
#[verifier::external_body]
fn take_route(routes: &mut HashMap<(u64, u64), TradeRoute>, key: (u64, u64)) -> (r: Option<TradeRoute>)
    ensures
        final(routes)@ == old(routes)@.remove(key),
        old(routes)@.contains_key(key) ==> r == Some(old(routes)@[key]),
        !old(routes)@.contains_key(key) ==> r is None,
{
    routes.remove(&key)
}

/// Store a route under `key`.
///
/// Trusted: calls `HashMap::insert` of std, after which the map holds the
/// route under the key and is otherwise unchanged. Pairs of `u64` are
/// compared and hashed by their fields.
#[verifier::external_body]
fn put_route(routes: &mut HashMap<(u64, u64), TradeRoute>, key: (u64, u64), route: TradeRoute)
    ensures
        final(routes)@ == old(routes)@.insert(key, route),
{
    routes.insert(key, route);
}

/// Observe one entity: near `current_settlement` (if any), carrying items
/// or not. When it arrives near a settlement other than the one it was last
/// near while it carried items, the trip is recorded on the route between
/// the two (created if new). The entity's record then remembers where it is
/// and what it carries.
pub fn observe_entity(
    movement_records: &mut HashMap<u64, EntityMovementRecord>,
    trade_routes: &mut HashMap<(u64, u64), TradeRoute>,
    entity_id: u64,
    current_settlement: Option<u64>,
    carrying: bool,
    current_tick: u64,
)
    requires
        completes_trip(record_before(old(movement_records)@, entity_id), current_settlement) ==> trip_fits(
            old(trade_routes)@,
            record_before(old(movement_records)@, entity_id).last_settlement_id->0,
            current_settlement->0,
        ),
    ensures
        ({
            let before = record_before(old(movement_records)@, entity_id);
            &&& final(movement_records)@ == old(movement_records)@.insert(
                entity_id,
                EntityMovementRecord {
                    entity_id: before.entity_id,
                    last_settlement_id: current_settlement,
                    carrying_items: carrying,
                },
            )
            &&& completes_trip(before, current_settlement) ==> final(trade_routes)@ == old(
                trade_routes,
            )@.insert(
                route_key_of(before.last_settlement_id->0, current_settlement->0),
                route_after_trip(
                    old(trade_routes)@,
                    before.last_settlement_id->0,
                    current_settlement->0,
                    current_tick,
                ),
            )
            &&& !completes_trip(before, current_settlement) ==> final(trade_routes)@ == old(
                trade_routes,
            )@
        }),
{
    let before = match movement_records.get(&entity_id) {
        Some(r) => *r,
        None => EntityMovementRecord { entity_id, last_settlement_id: None, carrying_items: false },
    };
    if let (Some(prev_sid), Some(curr_sid)) = (before.last_settlement_id, current_settlement) {
        if prev_sid != curr_sid && before.carrying_items {
            let key = if prev_sid <= curr_sid {
                (prev_sid, curr_sid)
            } else {
                (curr_sid, prev_sid)
            };
            let mut route = match take_route(trade_routes, key) {
                Some(r) => r,
                None => TradeRoute::new(prev_sid, curr_sid, current_tick),
            };
            route.record_trip(None, 1, current_tick);
            put_route(trade_routes, key, route);
            proof {
                assert(trade_routes@ =~= old(trade_routes)@.insert(
                    key,
                    route_after_trip(old(trade_routes)@, prev_sid, curr_sid, current_tick),
                ));
            }
        }
    }
    movement_records.insert(
        entity_id,
        EntityMovementRecord {
            entity_id: before.entity_id,
            last_settlement_id: current_settlement,
            carrying_items: carrying,
        },
    );
}

/// One observed entity: its ID, the settlement it is near (if any), and
/// whether it carries items.
pub type TradeObservation = (u64, Option<u64>, bool);

/// The movement records after observing `o`.
pub open spec fn records_after(
    records: Map<u64, EntityMovementRecord>,
    o: TradeObservation,
) -> Map<u64, EntityMovementRecord> {
    let before = record_before(records, o.0);
    records.insert(o.0, EntityMovementRecord { entity_id: before.entity_id, last_settlement_id: o.1, carrying_items: o.2 })
}

/// The trade routes after observing `o` at `tick`.
pub open spec fn routes_after(
    records: Map<u64, EntityMovementRecord>,
    routes: Map<(u64, u64), TradeRoute>,
    o: TradeObservation,
    tick: u64,
) -> Map<(u64, u64), TradeRoute> {
    let before = record_before(records, o.0);
    if completes_trip(before, o.1) {
        let from = before.last_settlement_id->0;
        let to = o.1->0;
        routes.insert(route_key_of(from, to), route_after_trip(routes, from, to, tick))
    } else {
        routes
    }
}

/// Whether no route's counters overflow while the observations are taken
/// in order.
pub open spec fn trips_fit(
    records: Map<u64, EntityMovementRecord>,
    routes: Map<(u64, u64), TradeRoute>,
    obs: Seq<TradeObservation>,
    tick: u64,
) -> bool
    decreases obs.len(),
{
    if obs.len() == 0 {
        true
    } else {
        let o = obs[0];
        let before = record_before(records, o.0);
        &&& completes_trip(before, o.1) ==> trip_fits(routes, before.last_settlement_id->0, o.1->0)
        &&& trips_fit(records_after(records, o), routes_after(records, routes, o, tick), obs.drop_first(), tick)
    }
}

/// The movement records and trade routes after taking the observations in
/// order.
pub open spec fn state_after(
    records: Map<u64, EntityMovementRecord>,
    routes: Map<(u64, u64), TradeRoute>,
    obs: Seq<TradeObservation>,
    tick: u64,
) -> (Map<u64, EntityMovementRecord>, Map<(u64, u64), TradeRoute>)
    decreases obs.len(),
{
    if obs.len() == 0 {
        (records, routes)
    } else {
        state_after(
            records_after(records, obs[0]),
            routes_after(records, routes, obs[0], tick),
            obs.drop_first(),
            tick,
        )
    }
}

/// Detect trade trips from one tick's observations of entities (each near a
/// settlement or not, carrying items or not), taken in order (see
/// `observe_entity`).
pub fn detect_trade_trips(
    movement_records: &mut HashMap<u64, EntityMovementRecord>,
    observations: &[TradeObservation],
    trade_routes: &mut HashMap<(u64, u64), TradeRoute>,
    current_tick: u64,
)
    requires
        trips_fit(old(movement_records)@, old(trade_routes)@, observations@, current_tick),
    ensures
        (final(movement_records)@, final(trade_routes)@) == state_after(
            old(movement_records)@,
            old(trade_routes)@,
            observations@,
            current_tick,
        ),
{
    let n = observations.len();
    let mut i: usize = 0;
    proof {
        assert(observations@.skip(0) =~= observations@);
    }
    while i < n
        invariant
            n == observations@.len(),
            i <= n,
            trips_fit(movement_records@, trade_routes@, observations@.skip(i as int), current_tick),
            state_after(movement_records@, trade_routes@, observations@.skip(i as int), current_tick)
                == state_after(old(movement_records)@, old(trade_routes)@, observations@, current_tick),
        decreases n - i,
    {
        let o = observations[i];
        let ghost rest = observations@.skip(i as int);
        let ghost records0 = movement_records@;
        let ghost routes0 = trade_routes@;
        proof {
            assert(rest[0] == o);
            assert(rest.drop_first() =~= observations@.skip(i + 1));
        }
        observe_entity(movement_records, trade_routes, o.0, o.1, o.2, current_tick);
        proof {
            assert(movement_records@ == records_after(records0, o));
            assert(trade_routes@ == routes_after(records0, routes0, o, current_tick));
        }
        i = i + 1;
    }
    proof {
        assert(observations@.skip(n as int) =~= Seq::<TradeObservation>::empty());
    }
}

/// Law: a trade trip is only recorded for an entity that carried items from
/// one settlement to a different one; staying put, arriving from nowhere or
/// travelling empty-handed records nothing.
pub proof fn law_trip_needs_carrying_between_settlements(
    before: EntityMovementRecord,
    current_settlement: Option<u64>,
)
    ensures
        !before.carrying_items ==> !completes_trip(before, current_settlement),
        current_settlement is None ==> !completes_trip(before, current_settlement),
        before.last_settlement_id == current_settlement ==> !completes_trip(before, current_settlement),
{
}

/// The routes of `routes` that are active at `current_tick`.
pub open spec fn active_routes(
    routes: Map<(u64, u64), TradeRoute>,
    current_tick: u64,
    max_inactive_ticks: u64,
) -> Map<(u64, u64), TradeRoute> {
    routes.restrict(
        routes.dom().filter(
            |k: (u64, u64)| active_at(routes[k].last_active_tick, current_tick, max_inactive_ticks),
        ),
    )
}

/// Keep only the routes that are active.
///
/// Trusted: calls `HashMap::retain` of std with a predicate that calls the
/// verified `TradeRoute::is_active`. The contract claims what std documents:
/// exactly the entries for which the predicate holds stay, unchanged.
#[verifier::external_body]
fn retain_active(
    trade_routes: &mut HashMap<(u64, u64), TradeRoute>,
    current_tick: u64,
    max_inactive_ticks: u64,
)
    ensures
        final(trade_routes)@ == active_routes(old(trade_routes)@, current_tick, max_inactive_ticks),
{
    trade_routes.retain(|_, route| route.is_active(current_tick, max_inactive_ticks));
}

/// Prune trade routes that have been inactive for too long.
pub fn prune_inactive_routes(
    trade_routes: &mut HashMap<(u64, u64), TradeRoute>,
    current_tick: u64,
    max_inactive_ticks: u64,
)
    ensures
        final(trade_routes)@ == active_routes(old(trade_routes)@, current_tick, max_inactive_ticks),
{
    retain_active(trade_routes, current_tick, max_inactive_ticks);
}

/// Law: after pruning, every route left is active, and every active route is
/// left unchanged.
pub proof fn law_prune_keeps_exactly_active(
    routes: Map<(u64, u64), TradeRoute>,
    current_tick: u64,
    max_inactive_ticks: u64,
    k: (u64, u64),
)
    ensures
        active_routes(routes, current_tick, max_inactive_ticks).contains_key(k) <==> (routes.contains_key(
            k,
        ) && active_at(routes[k].last_active_tick, current_tick, max_inactive_ticks)),
        active_routes(routes, current_tick, max_inactive_ticks).contains_key(k) ==> active_routes(
            routes,
            current_tick,
            max_inactive_ticks,
        )[k] == routes[k],
{
}

} // verus!
