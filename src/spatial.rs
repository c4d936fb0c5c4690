//! Zones over installation space and the tracking of entities through them.
use vstd::prelude::*;
use std::collections::HashMap;
use crate::error::ConfigurationError;

verus! {

/// A point in installation space, in whole grid units on each axis.
#[derive(Clone, Copy, Debug, PartialEq, Eq, Structural)]
pub struct Position {
    pub x: i64,
    pub y: i64,
    pub z: i64,
}

impl Position {
    pub fn new(x: i64, y: i64, z: i64) -> (r: Position)
        ensures
            r == (Position { x, y, z }),
    {
        Position { x, y, z }
    }
}

/// A named axis-aligned box; `bounds` holds its lowest and highest corners.
#[derive(Debug)]
pub struct SpatialZone {
    pub id: String,
    pub bounds: (Position, Position),
}

/// Boundary-inclusive membership of `p` in the box `lo ..= hi`, axis by axis.
pub open spec fn box_contains(lo: Position, hi: Position, p: Position) -> bool {
    &&& lo.x <= p.x <= hi.x
    &&& lo.y <= p.y <= hi.y
    &&& lo.z <= p.z <= hi.z
}

/// A zone's corners are ordered on every axis.
pub open spec fn bounds_ordered(lo: Position, hi: Position) -> bool {
    lo.x <= hi.x && lo.y <= hi.y && lo.z <= hi.z
}

impl SpatialZone {
    pub open spec fn spec_contains(&self, p: Position) -> bool {
        box_contains(self.bounds.0, self.bounds.1, p)
    }

    pub fn new(id: String, min: Position, max: Position) -> (r: SpatialZone)
        ensures
            r.id == id,
            r.bounds == (min, max),
    {
        SpatialZone { id, bounds: (min, max) }
    }

    /// Whether `position` lies inside the zone, boundaries included.
    pub fn contains(&self, position: &Position) -> (r: bool)
        ensures
            r == self.spec_contains(*position),
    {
        let lo = self.bounds.0;
        let hi = self.bounds.1;
        position.x >= lo.x && position.x <= hi.x && position.y >= lo.y && position.y <= hi.y
            && position.z >= lo.z && position.z <= hi.z
    }
}

/// A change in the set of zones that hold an entity.
#[derive(Clone, Debug, PartialEq, Eq)]
pub enum ZoneEvent {
    Enter(String),
    Exit(String),
    /// The entity is still inside the zone at the given tick.
    Inside(String, u64),
}

/// Membership of `p` in each zone, in zone order.
pub open spec fn membership(zones: Seq<SpatialZone>, p: Position) -> Seq<bool> {
    Seq::new(zones.len(), |i: int| zones[i].spec_contains(p))
}

/// Whether the recorded membership `prev` places the entity in zone `i`;
/// a zone past the end of `prev` was added after the last update and holds nobody.
pub open spec fn was_in(prev: Seq<bool>, i: int) -> bool {
    0 <= i < prev.len() && prev[i]
}

/// Exit events, in zone order, for the first `n` zones that held the entity
/// and do not hold `p`.
pub open spec fn exit_events(zones: Seq<SpatialZone>, prev: Seq<bool>, p: Position, n: nat) -> Seq<
    ZoneEvent,
>
    decreases n,
{
    if n == 0 {
        Seq::empty()
    } else {
        let rest = exit_events(zones, prev, p, (n - 1) as nat);
        let i = n - 1;
        if was_in(prev, i) && !zones[i].spec_contains(p) {
            rest.push(ZoneEvent::Exit(zones[i].id))
        } else {
            rest
        }
    }
}

/// Enter events, in zone order, for the first `n` zones that hold `p` and did
/// not hold the entity.
pub open spec fn enter_events(zones: Seq<SpatialZone>, prev: Seq<bool>, p: Position, n: nat) -> Seq<
    ZoneEvent,
>
    decreases n,
{
    if n == 0 {
        Seq::empty()
    } else {
        let rest = enter_events(zones, prev, p, (n - 1) as nat);
        let i = n - 1;
        if !was_in(prev, i) && zones[i].spec_contains(p) {
            rest.push(ZoneEvent::Enter(zones[i].id))
        } else {
            rest
        }
    }
}

/// Inside events at `tick`, in zone order, for the first `n` zones that the
/// recorded membership `prev` places the entity in.
pub open spec fn inside_events(zones: Seq<SpatialZone>, prev: Seq<bool>, tick: u64, n: nat) -> Seq<
    ZoneEvent,
>
    decreases n,
{
    if n == 0 {
        Seq::empty()
    } else {
        let rest = inside_events(zones, prev, tick, (n - 1) as nat);
        let i = n - 1;
        if was_in(prev, i) {
            rest.push(ZoneEvent::Inside(zones[i].id, tick))
        } else {
            rest
        }
    }
}

/// The events for an entity with membership `prev` that moves to `p`: all exits,
/// then all enters, each in zone order.
pub open spec fn zone_events(zones: Seq<SpatialZone>, prev: Seq<bool>, p: Position) -> Seq<
    ZoneEvent,
> {
    exit_events(zones, prev, p, zones.len()) + enter_events(zones, prev, p, zones.len())
}

/// Zone ids are pairwise distinct.
pub open spec fn ids_unique(zones: Seq<SpatialZone>) -> bool {
    forall|i: int, j: int| 0 <= i < j < zones.len() ==> zones[i].id@ != zones[j].id@
}

/// Some zone carries the id `id`.
pub open spec fn has_zone_id(zones: Seq<SpatialZone>, id: Seq<char>) -> bool {
    exists|i: int| 0 <= i < zones.len() && #[trigger] zones[i].id@ == id
}

/// No event occurs twice.
pub open spec fn no_repeats(s: Seq<ZoneEvent>) -> bool {
    forall|a: int, b: int| 0 <= a < b < s.len() ==> s[a] != s[b]
}

proof fn lemma_exit_events_shape(zones: Seq<SpatialZone>, prev: Seq<bool>, p: Position, n: nat)
    requires
        n <= zones.len(),
    ensures
        forall|k: int|
            0 <= k < exit_events(zones, prev, p, n).len() ==> exists|j: int|
                0 <= j < n && #[trigger] exit_events(zones, prev, p, n)[k] == ZoneEvent::Exit(
                    zones[j].id,
                ) && was_in(prev, j) && !zones[j].spec_contains(p),
        forall|j: int|
            0 <= j < n && was_in(prev, j) && !zones[j].spec_contains(p) ==> exit_events(
                zones,
                prev,
                p,
                n,
            ).contains(ZoneEvent::Exit(#[trigger] zones[j].id)),
        ids_unique(zones) ==> no_repeats(exit_events(zones, prev, p, n)),
    decreases n,
{
    if n > 0 {
        lemma_exit_events_shape(zones, prev, p, (n - 1) as nat);
        let rest = exit_events(zones, prev, p, (n - 1) as nat);
        let s = exit_events(zones, prev, p, n);
        assert forall|j: int|
            0 <= j < n && was_in(prev, j) && !zones[j].spec_contains(p) implies s.contains(
            ZoneEvent::Exit(#[trigger] zones[j].id),
        ) by {
            if j < n - 1 {
                let k = choose|k: int| 0 <= k < rest.len() && rest[k] == ZoneEvent::Exit(zones[j].id);
                assert(s[k] == rest[k]);
            } else {
                assert(s[rest.len() as int] == ZoneEvent::Exit(zones[j].id));
            }
        }
        assert forall|k: int| 0 <= k < s.len() implies exists|j: int|
            0 <= j < n && #[trigger] s[k] == ZoneEvent::Exit(zones[j].id) && was_in(prev, j)
                && !zones[j].spec_contains(p) by {
            if k < rest.len() {
                assert(s[k] == rest[k]);
            } else {
                assert(s[k] == ZoneEvent::Exit(zones[n - 1].id));
            }
        }
        if ids_unique(zones) {
            assert forall|a: int, b: int| 0 <= a < b < s.len() implies s[a] != s[b] by {
                if b >= rest.len() {
                    assert(s[a] == rest[a]);
                    let j = choose|j: int|
                        0 <= j < n - 1 && #[trigger] rest[a] == ZoneEvent::Exit(zones[j].id)
                            && was_in(prev, j) && !zones[j].spec_contains(p);
                    assert(zones[j].id@ != zones[n - 1].id@);
                } else {
                    assert(s[a] == rest[a] && s[b] == rest[b]);
                }
            }
        }
    }
}

proof fn lemma_enter_events_shape(zones: Seq<SpatialZone>, prev: Seq<bool>, p: Position, n: nat)
    requires
        n <= zones.len(),
    ensures
        forall|k: int|
            0 <= k < enter_events(zones, prev, p, n).len() ==> exists|j: int|
                0 <= j < n && #[trigger] enter_events(zones, prev, p, n)[k] == ZoneEvent::Enter(
                    zones[j].id,
                ) && !was_in(prev, j) && zones[j].spec_contains(p),
        forall|j: int|
            0 <= j < n && !was_in(prev, j) && zones[j].spec_contains(p) ==> enter_events(
                zones,
                prev,
                p,
                n,
            ).contains(ZoneEvent::Enter(#[trigger] zones[j].id)),
        ids_unique(zones) ==> no_repeats(enter_events(zones, prev, p, n)),
    decreases n,
{
    if n > 0 {
        lemma_enter_events_shape(zones, prev, p, (n - 1) as nat);
        let rest = enter_events(zones, prev, p, (n - 1) as nat);
        let s = enter_events(zones, prev, p, n);
        assert forall|j: int|
            0 <= j < n && !was_in(prev, j) && zones[j].spec_contains(p) implies s.contains(
            ZoneEvent::Enter(#[trigger] zones[j].id),
        ) by {
            if j < n - 1 {
                let k = choose|k: int| 0 <= k < rest.len() && rest[k] == ZoneEvent::Enter(zones[j].id);
                assert(s[k] == rest[k]);
            } else {
                assert(s[rest.len() as int] == ZoneEvent::Enter(zones[j].id));
            }
        }
        assert forall|k: int| 0 <= k < s.len() implies exists|j: int|
            0 <= j < n && #[trigger] s[k] == ZoneEvent::Enter(zones[j].id) && !was_in(prev, j)
                && zones[j].spec_contains(p) by {
            if k < rest.len() {
                assert(s[k] == rest[k]);
            } else {
                assert(s[k] == ZoneEvent::Enter(zones[n - 1].id));
            }
        }
        if ids_unique(zones) {
            assert forall|a: int, b: int| 0 <= a < b < s.len() implies s[a] != s[b] by {
                if b >= rest.len() {
                    assert(s[a] == rest[a]);
                    let j = choose|j: int|
                        0 <= j < n - 1 && #[trigger] rest[a] == ZoneEvent::Enter(zones[j].id)
                            && !was_in(prev, j) && zones[j].spec_contains(p);
                    assert(zones[j].id@ != zones[n - 1].id@);
                } else {
                    assert(s[a] == rest[a] && s[b] == rest[b]);
                }
            }
        }
    }
}

/// Every event names a zone whose membership changed: an exit only a zone that
/// held the entity and no longer does, an enter only a zone that holds it now
/// and did not before. Every such change is reported.
pub proof fn lemma_events_match_changes(zones: Seq<SpatialZone>, prev: Seq<bool>, p: Position)
    ensures
        forall|k: int|
            0 <= k < zone_events(zones, prev, p).len() ==> exists|j: int|
                0 <= j < zones.len() && {
                    ||| #[trigger] zone_events(zones, prev, p)[k] == ZoneEvent::Exit(zones[j].id)
                        && was_in(prev, j) && !zones[j].spec_contains(p)
                    ||| zone_events(zones, prev, p)[k] == ZoneEvent::Enter(zones[j].id) && !was_in(
                        prev,
                        j,
                    ) && zones[j].spec_contains(p)
                },
        forall|j: int|
            0 <= j < zones.len() && was_in(prev, j) && !zones[j].spec_contains(p) ==> zone_events(
                zones,
                prev,
                p,
            ).contains(ZoneEvent::Exit(#[trigger] zones[j].id)),
        forall|j: int|
            0 <= j < zones.len() && !was_in(prev, j) && zones[j].spec_contains(p) ==> zone_events(
                zones,
                prev,
                p,
            ).contains(ZoneEvent::Enter(#[trigger] zones[j].id)),
        ids_unique(zones) ==> no_repeats(zone_events(zones, prev, p)),
{
    let n = zones.len();
    lemma_exit_events_shape(zones, prev, p, n);
    lemma_enter_events_shape(zones, prev, p, n);
    let x = exit_events(zones, prev, p, n);
    let y = enter_events(zones, prev, p, n);
    let s = zone_events(zones, prev, p);
    assert forall|k: int| 0 <= k < s.len() implies exists|j: int|
        0 <= j < zones.len() && {
            ||| #[trigger] s[k] == ZoneEvent::Exit(zones[j].id) && was_in(prev, j)
                && !zones[j].spec_contains(p)
            ||| s[k] == ZoneEvent::Enter(zones[j].id) && !was_in(prev, j) && zones[j].spec_contains(p)
        } by {
        if k < x.len() {
            assert(s[k] == x[k]);
        } else {
            assert(s[k] == y[k - x.len()]);
        }
    }
    assert forall|j: int|
        0 <= j < zones.len() && was_in(prev, j) && !zones[j].spec_contains(p) implies s.contains(
        ZoneEvent::Exit(#[trigger] zones[j].id),
    ) by {
        let k = choose|k: int| 0 <= k < x.len() && x[k] == ZoneEvent::Exit(zones[j].id);
        assert(s[k] == x[k]);
    }
    assert forall|j: int|
        0 <= j < zones.len() && !was_in(prev, j) && zones[j].spec_contains(p) implies s.contains(
        ZoneEvent::Enter(#[trigger] zones[j].id),
    ) by {
        let k = choose|k: int| 0 <= k < y.len() && y[k] == ZoneEvent::Enter(zones[j].id);
        assert(s[x.len() + k] == y[k]);
    }
    if ids_unique(zones) {
        assert forall|a: int, b: int| 0 <= a < b < s.len() implies s[a] != s[b] by {
            if a < x.len() && b >= x.len() {
                assert(s[a] == x[a]);
                assert(s[b] == y[b - x.len()]);
                let ja = choose|j: int|
                    0 <= j < n && #[trigger] x[a] == ZoneEvent::Exit(zones[j].id) && was_in(prev, j)
                        && !zones[j].spec_contains(p);
                assert(x[a] is Exit);
                assert(y[b - x.len()] is Enter);
            } else if b < x.len() {
                assert(s[a] == x[a] && s[b] == x[b]);
            } else {
                assert(s[a] == y[a - x.len()] && s[b] == y[b - x.len()]);
            }
        }
    }
}

/// Updating an entity to the position it already holds raises no event.
pub proof fn lemma_repeat_update_is_silent(zones: Seq<SpatialZone>, p: Position)
    ensures
        zone_events(zones, membership(zones, p), p) == Seq::<ZoneEvent>::empty(),
{
    let prev = membership(zones, p);
    lemma_events_match_changes(zones, prev, p);
    let s = zone_events(zones, prev, p);
    if s.len() > 0 {
        let j = choose|j: int|
            0 <= j < zones.len() && {
                ||| #[trigger] s[0] == ZoneEvent::Exit(zones[j].id) && was_in(prev, j)
                    && !zones[j].spec_contains(p)
                ||| s[0] == ZoneEvent::Enter(zones[j].id) && !was_in(prev, j) && zones[j].spec_contains(p)
            };
        assert(prev[j] == zones[j].spec_contains(p));
    }
    assert(s =~= Seq::<ZoneEvent>::empty());
}

/// Moving into a zone and then out of it again reports exactly one enter for
/// that zone on the first move and exactly one exit on the second, and no
/// other event for it on either move.
pub proof fn lemma_enter_then_exit(
    zones: Seq<SpatialZone>,
    prev: Seq<bool>,
    p: Position,
    q: Position,
    i: int,
)
    requires
        ids_unique(zones),
        0 <= i < zones.len(),
        !was_in(prev, i),
        zones[i].spec_contains(p),
        !zones[i].spec_contains(q),
    ensures
        zone_events(zones, prev, p).contains(ZoneEvent::Enter(zones[i].id)),
        !zone_events(zones, prev, p).contains(ZoneEvent::Exit(zones[i].id)),
        zone_events(zones, membership(zones, p), q).contains(ZoneEvent::Exit(zones[i].id)),
        !zone_events(zones, membership(zones, p), q).contains(ZoneEvent::Enter(zones[i].id)),
        no_repeats(zone_events(zones, prev, p)),
        no_repeats(zone_events(zones, membership(zones, p), q)),
{
    let mid = membership(zones, p);
    lemma_events_match_changes(zones, prev, p);
    lemma_events_match_changes(zones, mid, q);
    let e1 = zone_events(zones, prev, p);
    let e2 = zone_events(zones, mid, q);
    assert(zones[i].id == zones[i].id);
    if e1.contains(ZoneEvent::Exit(zones[i].id)) {
        let k = choose|k: int| 0 <= k < e1.len() && e1[k] == ZoneEvent::Exit(zones[i].id);
        let j = choose|j: int|
            0 <= j < zones.len() && {
                ||| #[trigger] e1[k] == ZoneEvent::Exit(zones[j].id) && was_in(prev, j)
                    && !zones[j].spec_contains(p)
                ||| e1[k] == ZoneEvent::Enter(zones[j].id) && !was_in(prev, j) && zones[j].spec_contains(p)
            };
        assert(zones[j].id@ == zones[i].id@);
    }
    if e2.contains(ZoneEvent::Enter(zones[i].id)) {
        let k = choose|k: int| 0 <= k < e2.len() && e2[k] == ZoneEvent::Enter(zones[i].id);
        let j = choose|j: int|
            0 <= j < zones.len() && {
                ||| #[trigger] e2[k] == ZoneEvent::Exit(zones[j].id) && was_in(mid, j)
                    && !zones[j].spec_contains(q)
                ||| e2[k] == ZoneEvent::Enter(zones[j].id) && !was_in(mid, j) && zones[j].spec_contains(q)
            };
        assert(zones[j].id@ == zones[i].id@);
    }
}

/// Owns the zones and the last known membership of each tracked entity.
pub struct SpatialController {
    zones: Vec<SpatialZone>,
    entities: HashMap<u64, Vec<bool>>,
}

impl SpatialController {
    pub closed spec fn zones(&self) -> Seq<SpatialZone> {
        self.zones@
    }

    /// The membership recorded for `entity`; empty when it is not tracked.
    pub closed spec fn last_membership(&self, entity: u64) -> Seq<bool> {
        if self.entities@.contains_key(entity) {
            self.entities@[entity]@
        } else {
            Seq::empty()
        }
    }

    pub closed spec fn is_tracked(&self, entity: u64) -> bool {
        self.entities@.contains_key(entity)
    }

    pub open spec fn wf(&self) -> bool {
        &&& ids_unique(self.zones())
        &&& forall|i: int|
            0 <= i < self.zones().len() ==> bounds_ordered(
                #[trigger] self.zones()[i].bounds.0,
                self.zones()[i].bounds.1,
            )
    }

    pub fn new() -> (r: SpatialController)
        ensures
            r.wf(),
            r.zones() == Seq::<SpatialZone>::empty(),
            forall|e: u64| !r.is_tracked(e),
    {
        SpatialController { zones: Vec::new(), entities: HashMap::new() }
    }

    pub fn zone_count(&self) -> (r: usize)
        ensures
            r == self.zones().len(),
    {
        self.zones.len()
    }

    /// Whether some zone has the id `id`.
    pub fn has_zone(&self, id: &String) -> (r: bool)
        ensures
            r == has_zone_id(self.zones(), id@),
    {
        let mut i: usize = 0;
        while i < self.zones.len()
            invariant
                0 <= i <= self.zones@.len(),
                forall|k: int| 0 <= k < i ==> #[trigger] self.zones@[k].id@ != id@,
            decreases self.zones@.len() - i,
        {
            if self.zones[i].id == *id {
                return true;
            }
            i = i + 1;
        }
        false
    }

    /// Adds a zone. Fails when its id is taken or its corners are out of order.
    pub fn add_zone(&mut self, zone: SpatialZone) -> (r: Result<(), ConfigurationError>)
        requires
            old(self).wf(),
        ensures
            final(self).wf(),
            forall|e: u64| #[trigger] final(self).last_membership(e) == old(self).last_membership(e),
            forall|e: u64| #[trigger] final(self).is_tracked(e) == old(self).is_tracked(e),
            has_zone_id(old(self).zones(), zone.id@) ==> {
                &&& r == Err::<(), ConfigurationError>(ConfigurationError::DuplicateZoneId(zone.id))
                &&& final(self).zones() == old(self).zones()
            },
            !has_zone_id(old(self).zones(), zone.id@) && !bounds_ordered(zone.bounds.0, zone.bounds.1)
                ==> {
                &&& r == Err::<(), ConfigurationError>(ConfigurationError::MalformedBounds(zone.id))
                &&& final(self).zones() == old(self).zones()
            },
            !has_zone_id(old(self).zones(), zone.id@) && bounds_ordered(zone.bounds.0, zone.bounds.1)
                ==> {
                &&& r == Ok::<(), ConfigurationError>(())
                &&& final(self).zones() == old(self).zones().push(zone)
            },
    {
        let mut i: usize = 0;
        while i < self.zones.len()
            invariant
                0 <= i <= self.zones@.len(),
                *self == *old(self),
                self.wf(),
                forall|k: int| 0 <= k < i ==> #[trigger] self.zones@[k].id@ != zone.id@,
            decreases self.zones@.len() - i,
        {
            if self.zones[i].id == zone.id {
                return Err(ConfigurationError::DuplicateZoneId(zone.id));
            }
            i = i + 1;
        }
        assert(!has_zone_id(self.zones(), zone.id@));
        let lo = zone.bounds.0;
        let hi = zone.bounds.1;
        if !(lo.x <= hi.x && lo.y <= hi.y && lo.z <= hi.z) {
            return Err(ConfigurationError::MalformedBounds(zone.id));
        }
        let ghost before = self.zones@;
        self.zones.push(zone);
        assert forall|a: int, b: int| 0 <= a < b < self.zones@.len() implies self.zones@[a].id@
            != self.zones@[b].id@ by {
            if b == before.len() {
                assert(before[a].id@ != zone.id@);
            }
        }
        Ok(())
    }

    /// Records `position` for `entity` and returns the zone transitions since its
    /// last recorded position: exits first, then enters, each in zone order.
    pub fn update_position(&mut self, entity_id: u64, position: Position) -> (r: Vec<ZoneEvent>)
        requires
            old(self).wf(),
        ensures
            final(self).wf(),
            final(self).zones() == old(self).zones(),
            r@ == zone_events(old(self).zones(), old(self).last_membership(entity_id), position),
            final(self).is_tracked(entity_id),
            final(self).last_membership(entity_id) == membership(old(self).zones(), position),
            forall|e: u64|
                e != entity_id ==> #[trigger] final(self).last_membership(e) == old(self).last_membership(e)
                    && final(self).is_tracked(e) == old(self).is_tracked(e),
    {
        broadcast use vstd::std_specs::hash::group_hash_axioms;

        let ghost zones = self.zones@;
        let ghost prev_spec = self.last_membership(entity_id);
        let prev = match self.entities.remove(&entity_id) {
            Some(v) => v,
            None => Vec::new(),
        };
        assert(prev@ == prev_spec);
        let mut now: Vec<bool> = Vec::new();
        let mut exits: Vec<ZoneEvent> = Vec::new();
        let mut enters: Vec<ZoneEvent> = Vec::new();
        let n = self.zones.len();
        let mut i: usize = 0;
        while i < n
            invariant
                n == zones.len(),
                self.zones@ == zones,
                0 <= i <= n,
                prev@ == prev_spec,
                now@ == membership(zones, position).take(i as int),
                exits@ == exit_events(zones, prev_spec, position, i as nat),
                enters@ == enter_events(zones, prev_spec, position, i as nat),
            decreases n - i,
        {
            let inside = self.zones[i].contains(&position);
            let was = i < prev.len() && prev[i];
            if was && !inside {
                exits.push(ZoneEvent::Exit(self.zones[i].id.clone()));
            } else if !was && inside {
                enters.push(ZoneEvent::Enter(self.zones[i].id.clone()));
            }
            now.push(inside);
            proof {
                assert(membership(zones, position).take(i + 1) =~= membership(zones, position).take(
                    i as int,
                ).push(inside));
            }
            i = i + 1;
        }
        assert(now@ =~= membership(zones, position));
        self.entities.insert(entity_id, now);
        exits.append(&mut enters);
        exits
    }

    /// An `Inside` event at `tick` for every zone that held `entity` at its last
    /// update, in zone order. Containment is not computed again.
    pub fn ticks_inside(&self, entity_id: u64, tick: u64) -> (r: Vec<ZoneEvent>)
        requires
            self.wf(),
        ensures
            r@ == inside_events(self.zones(), self.last_membership(entity_id), tick, self.zones().len()),
    {
        broadcast use vstd::std_specs::hash::group_hash_axioms;

        let ghost prev = self.last_membership(entity_id);
        let empty: Vec<bool> = Vec::new();
        let held = match self.entities.get(&entity_id) {
            Some(v) => v,
            None => &empty,
        };
        assert(held@ == prev);
        let mut out: Vec<ZoneEvent> = Vec::new();
        let mut i: usize = 0;
        while i < self.zones.len()
            invariant
                0 <= i <= self.zones@.len(),
                held@ == prev,
                out@ == inside_events(self.zones@, prev, tick, i as nat),
            decreases self.zones@.len() - i,
        {
            if i < held.len() && held[i] {
                out.push(ZoneEvent::Inside(self.zones[i].id.clone(), tick));
            }
            i = i + 1;
        }
        out
    }

    /// Stops tracking `entity`; its next update counts from no zone at all.
    pub fn deregister_entity(&mut self, entity_id: u64)
        requires
            old(self).wf(),
        ensures
            final(self).wf(),
            final(self).zones() == old(self).zones(),
            !final(self).is_tracked(entity_id),
            final(self).last_membership(entity_id) == Seq::<bool>::empty(),
            forall|e: u64|
                e != entity_id ==> #[trigger] final(self).last_membership(e) == old(self).last_membership(e)
                    && final(self).is_tracked(e) == old(self).is_tracked(e),
    {
        broadcast use vstd::std_specs::hash::group_hash_axioms;

        self.entities.remove(&entity_id);
    }
}

} // verus!
