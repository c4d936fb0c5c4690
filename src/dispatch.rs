//! Turning zone events into device commands: binding lookup, ordering by zone
//! id, and the per-activation retry state machine.
use vstd::prelude::*;
use vstd::string::StrSliceExecFns;
use crate::device::{Device, DeviceError, DeviceManager, has_id};
use crate::error::ConfigurationError;
use crate::spatial::{SpatialController, ZoneEvent, has_zone_id};

verus! {

/// Lexical order on character sequences, by code point; a proper prefix comes first.
pub open spec fn lex_lt(a: Seq<char>, b: Seq<char>) -> bool
    decreases a.len(),
{
    if b.len() == 0 {
        false
    } else if a.len() == 0 {
        true
    } else if a[0] != b[0] {
        (a[0] as int) < (b[0] as int)
    } else {
        lex_lt(a.drop_first(), b.drop_first())
    }
}

pub proof fn lemma_lex_irreflexive(a: Seq<char>)
    ensures
        !lex_lt(a, a),
    decreases a.len(),
{
    if a.len() > 0 {
        lemma_lex_irreflexive(a.drop_first());
    }
}

pub proof fn lemma_lex_total(a: Seq<char>, b: Seq<char>)
    ensures
        a != b ==> lex_lt(a, b) || lex_lt(b, a),
        !(lex_lt(a, b) && lex_lt(b, a)),
    decreases a.len(),
{
    if a.len() > 0 && b.len() > 0 {
        lemma_lex_total(a.drop_first(), b.drop_first());
        if a[0] == b[0] && a.drop_first() == b.drop_first() {
            assert forall|i: int| 0 <= i < a.len() implies a[i] == b[i] by {
                if i > 0 {
                    assert(a[i] == a.drop_first()[i - 1]);
                    assert(b[i] == b.drop_first()[i - 1]);
                }
            }
            assert(a =~= b);
        }
        if a[0] != b[0] {
            assert((a[0] as int) != (b[0] as int));
        }
    } else if a.len() == 0 && b.len() == 0 {
        assert(a =~= b);
    }
}

pub proof fn lemma_lex_transitive(a: Seq<char>, b: Seq<char>, c: Seq<char>)
    requires
        lex_lt(a, b),
        lex_lt(b, c),
    ensures
        lex_lt(a, c),
    decreases a.len(),
{
    if a.len() > 0 && a[0] == b[0] && b[0] == c[0] {
        lemma_lex_transitive(a.drop_first(), b.drop_first(), c.drop_first());
    }
}

/// Whether `a` comes strictly before `b` in lexical order.
pub fn lex_less(a: &String, b: &String) -> (r: bool)
    ensures
        r == lex_lt(a@, b@),
{
    let sa = a.as_str();
    let sb = b.as_str();
    let la = sa.unicode_len();
    let lb = sb.unicode_len();
    let mut i: usize = 0;
    assert(a@.skip(0) =~= a@);
    assert(b@.skip(0) =~= b@);
    while i < la && i < lb
        invariant
            la == a@.len(),
            lb == b@.len(),
            sa@ == a@,
            sb@ == b@,
            0 <= i <= la,
            i <= lb,
            lex_lt(a@, b@) == lex_lt(a@.skip(i as int), b@.skip(i as int)),
        decreases la - i,
    {
        let ca = sa.get_char(i);
        let cb = sb.get_char(i);
        if ca != cb {
            return (ca as u32) < (cb as u32);
        }
        assert(a@.skip(i + 1) =~= a@.skip(i as int).drop_first());
        assert(b@.skip(i + 1) =~= b@.skip(i as int).drop_first());
        i = i + 1;
    }
    i < lb
}


/// Where one activation of a binding stands. The counts are the attempts made.
#[derive(Clone, Copy, Debug, PartialEq, Eq, Structural)]
pub enum ActivationState {
    Idle,
    Pending,
    Retrying(u32),
    Sent(u32),
    Dropped(u32),
}

/// How often a command is tried, and how long to wait between tries.
#[derive(Clone, Copy, Debug, PartialEq, Eq, Structural)]
pub struct RetryPolicy {
    pub max_attempts: u32,
    pub base_delay_ms: u64,
    pub max_delay_ms: u64,
}

/// The state after one attempt that succeeded (`ok`) or failed. A success is
/// `Sent`; a failure is `Dropped` once `max_attempts` attempts are spent and
/// `Retrying` before. Idle and finished activations do not move.
pub open spec fn step(s: ActivationState, ok: bool, max_attempts: u32) -> ActivationState {
    match s {
        ActivationState::Pending => {
            if ok {
                ActivationState::Sent(1)
            } else if 1 >= max_attempts {
                ActivationState::Dropped(1)
            } else {
                ActivationState::Retrying(1)
            }
        },
        ActivationState::Retrying(n) => {
            if ok {
                ActivationState::Sent((n + 1) as u32)
            } else if n + 1 >= max_attempts {
                ActivationState::Dropped((n + 1) as u32)
            } else {
                ActivationState::Retrying((n + 1) as u32)
            }
        },
        _ => s,
    }
}

/// The state of an activation that starts `Pending` and sees `outcomes` in turn.
pub open spec fn run_attempts(outcomes: Seq<bool>, max_attempts: u32) -> ActivationState
    decreases outcomes.len(),
{
    if outcomes.len() == 0 {
        ActivationState::Pending
    } else {
        step(run_attempts(outcomes.drop_last(), max_attempts), outcomes.last(), max_attempts)
    }
}

/// `n` failed attempts.
pub open spec fn failures(n: nat) -> Seq<bool> {
    Seq::new(n, |i: int| false)
}

proof fn lemma_run_failures(n: nat, max_attempts: u32)
    requires
        1 <= n <= max_attempts,
    ensures
        run_attempts(failures(n), max_attempts) == if n == max_attempts {
            ActivationState::Dropped(n as u32)
        } else {
            ActivationState::Retrying(n as u32)
        },
    decreases n,
{
    assert(failures(n).drop_last() =~= failures((n - 1) as nat));
    if n > 1 {
        lemma_run_failures((n - 1) as nat, max_attempts);
    }
}

/// An activation whose device fails every time is dropped after exactly
/// `max_attempts` attempts; one that fails `k < max_attempts` times and then
/// succeeds is sent after `k + 1` attempts.
pub proof fn lemma_retry_outcomes(k: nat, max_attempts: u32)
    requires
        1 <= max_attempts,
        k < max_attempts,
    ensures
        run_attempts(failures(max_attempts as nat), max_attempts) == ActivationState::Dropped(
            max_attempts,
        ),
        run_attempts(failures(k).push(true), max_attempts) == ActivationState::Sent((k + 1) as u32),
{
    lemma_run_failures(max_attempts as nat, max_attempts);
    assert(failures(k).push(true).drop_last() =~= failures(k));
    if k > 0 {
        lemma_run_failures(k, max_attempts);
    }
}

/// The state after one attempt, as `step` describes it.
pub fn next_state(state: ActivationState, ok: bool, max_attempts: u32) -> (r: ActivationState)
    requires
        state matches ActivationState::Retrying(n) ==> n < max_attempts,
    ensures
        r == step(state, ok, max_attempts),
{
    match state {
        ActivationState::Pending => {
            if ok {
                ActivationState::Sent(1)
            } else if 1 >= max_attempts {
                ActivationState::Dropped(1)
            } else {
                ActivationState::Retrying(1)
            }
        },
        ActivationState::Retrying(n) => {
            if ok {
                ActivationState::Sent(n + 1)
            } else if n + 1 >= max_attempts {
                ActivationState::Dropped(n + 1)
            } else {
                ActivationState::Retrying(n + 1)
            }
        },
        _ => state,
    }
}

/// Wait before retry `k` (counting from zero): `base` doubled `k` times, never
/// more than `cap`.
pub open spec fn backoff(base: int, cap: int, k: nat) -> int
    decreases k,
{
    if k == 0 {
        if base < cap { base } else { cap }
    } else {
        let d = 2 * backoff(base, cap, (k - 1) as nat);
        if d < cap { d } else { cap }
    }
}

impl RetryPolicy {
    /// The wait in milliseconds before the retry that follows `attempts` failed
    /// attempts.
    pub fn backoff_delay(&self, attempts: u32) -> (r: u64)
        requires
            attempts >= 1,
        ensures
            r == backoff(self.base_delay_ms as int, self.max_delay_ms as int, (attempts - 1) as nat),
            r <= self.max_delay_ms,
    {
        let cap = self.max_delay_ms;
        let mut d: u64 = if self.base_delay_ms < cap { self.base_delay_ms } else { cap };
        let mut k: u32 = 1;
        while k < attempts
            invariant
                1 <= k <= attempts,
                cap == self.max_delay_ms,
                d <= cap,
                d == backoff(self.base_delay_ms as int, cap as int, (k - 1) as nat),
            decreases attempts - k,
        {
            d = if d > cap - d { cap } else { 2 * d };
            k = k + 1;
        }
        d
    }
}


/// The zone transition a binding answers to.
#[derive(Clone, Copy, Debug, PartialEq, Eq, Structural)]
pub enum EventKind {
    Enter,
    Exit,
    /// Fires on an inside event whose tick is a multiple of the period; a period
    /// of zero never fires.
    Inside(u64),
}

/// Sends `command` to `device_id` whenever a `kind` event occurs for `zone_id`.
#[derive(Debug)]
pub struct Binding {
    pub zone_id: String,
    pub kind: EventKind,
    pub device_id: String,
    pub command: String,
}

impl Binding {
    pub fn new(zone_id: String, kind: EventKind, device_id: String, command: String) -> (r: Binding)
        ensures
            r == (Binding { zone_id, kind, device_id, command }),
    {
        Binding { zone_id, kind, device_id, command }
    }
}

pub open spec fn fires(b: Binding, e: ZoneEvent) -> bool {
    match e {
        ZoneEvent::Enter(z) => b.kind == EventKind::Enter && b.zone_id@ == z@,
        ZoneEvent::Exit(z) => b.kind == EventKind::Exit && b.zone_id@ == z@,
        ZoneEvent::Inside(z, t) => match b.kind {
            EventKind::Inside(period) => period > 0 && t % period == 0 && b.zone_id@ == z@,
            _ => false,
        },
    }
}

/// Some event of the cycle triggers `b`.
pub open spec fn fired(b: Binding, events: Seq<ZoneEvent>) -> bool {
    exists|k: int| 0 <= k < events.len() && fires(b, #[trigger] events[k])
}

/// Binding `i` is served before binding `j`: its zone id comes first in lexical
/// order, or the zone ids are equal and `i` was configured first.
pub open spec fn precedes(bs: Seq<Binding>, i: int, j: int) -> bool {
    lex_lt(bs[i].zone_id@, bs[j].zone_id@) || (bs[i].zone_id@ == bs[j].zone_id@ && i < j)
}

/// `s` lists, each once and in serving order, exactly the bindings that the
/// events fire.
pub open spec fn is_plan(bs: Seq<Binding>, events: Seq<ZoneEvent>, s: Seq<usize>) -> bool {
    &&& forall|k: int| 0 <= k < s.len() ==> #[trigger] s[k] < bs.len() && fired(bs[s[k] as int], events)
    &&& forall|i: int| 0 <= i < bs.len() && fired(#[trigger] bs[i], events) ==> s.contains(i as usize)
    &&& forall|a: int, b: int| 0 <= a < b < s.len() ==> precedes(bs, s[a] as int, s[b] as int)
}

/// Both the zone and the device of `b` are known.
pub open spec fn binding_known(b: Binding, zones: Seq<crate::spatial::SpatialZone>, ids: Seq<Seq<char>>) -> bool {
    has_zone_id(zones, b.zone_id@) && has_id(ids, b.device_id@)
}

proof fn lemma_precedes_asymmetric(bs: Seq<Binding>, i: int, j: int)
    requires
        0 <= i < bs.len(),
        0 <= j < bs.len(),
    ensures
        !(precedes(bs, i, j) && precedes(bs, j, i)),
        !precedes(bs, i, i),
{
    lemma_lex_total(bs[i].zone_id@, bs[j].zone_id@);
    lemma_lex_irreflexive(bs[i].zone_id@);
}

proof fn lemma_sorted_unique(bs: Seq<Binding>, s1: Seq<usize>, s2: Seq<usize>)
    requires
        forall|k: int| 0 <= k < s1.len() ==> #[trigger] s1[k] < bs.len(),
        forall|k: int| 0 <= k < s2.len() ==> #[trigger] s2[k] < bs.len(),
        forall|a: int, b: int| 0 <= a < b < s1.len() ==> precedes(bs, s1[a] as int, s1[b] as int),
        forall|a: int, b: int| 0 <= a < b < s2.len() ==> precedes(bs, s2[a] as int, s2[b] as int),
        forall|x: usize| s1.contains(x) <==> s2.contains(x),
    ensures
        s1 == s2,
    decreases s1.len(),
{
    if s1.len() == 0 {
        if s2.len() > 0 {
            assert(s2.contains(s2[0]));
        }
        assert(s1 =~= s2);
    } else if s2.len() == 0 {
        assert(s1.contains(s1[0]));
    } else {
        let x = s1[0];
        let y = s2[0];
        assert(s1.contains(x));
        assert(s2.contains(y));
        if x != y {
            let m = choose|m: int| 0 <= m < s2.len() && s2[m] == x;
            let m1 = choose|m: int| 0 <= m < s1.len() && s1[m] == y;
            assert(precedes(bs, y as int, x as int));
            assert(precedes(bs, x as int, y as int));
            lemma_precedes_asymmetric(bs, x as int, y as int);
        }
        let t1 = s1.drop_first();
        let t2 = s2.drop_first();
        assert forall|z: usize| t1.contains(z) <==> t2.contains(z) by {
            if t1.contains(z) {
                let a = choose|a: int| 0 <= a < t1.len() && t1[a] == z;
                assert(s1[a + 1] == z);
                assert(precedes(bs, x as int, z as int));
                lemma_precedes_asymmetric(bs, x as int, z as int);
                assert(s2.contains(z));
                let b = choose|b: int| 0 <= b < s2.len() && s2[b] == z;
                assert(b != 0);
                assert(t2[b - 1] == z);
            }
            if t2.contains(z) {
                let a = choose|a: int| 0 <= a < t2.len() && t2[a] == z;
                assert(s2[a + 1] == z);
                assert(precedes(bs, y as int, z as int));
                lemma_precedes_asymmetric(bs, y as int, z as int);
                assert(s1.contains(z));
                let b = choose|b: int| 0 <= b < s1.len() && s1[b] == z;
                assert(b != 0);
                assert(t1[b - 1] == z);
            }
        }
        assert forall|a: int, b: int| 0 <= a < b < t1.len() implies precedes(bs, t1[a] as int, t1[b] as int) by {
            assert(t1[a] == s1[a + 1] && t1[b] == s1[b + 1]);
        }
        assert forall|a: int, b: int| 0 <= a < b < t2.len() implies precedes(bs, t2[a] as int, t2[b] as int) by {
            assert(t2[a] == s2[a + 1] && t2[b] == s2[b + 1]);
        }
        assert forall|k: int| 0 <= k < t1.len() implies #[trigger] t1[k] < bs.len() by {
            assert(t1[k] == s1[k + 1]);
        }
        assert forall|k: int| 0 <= k < t2.len() implies #[trigger] t2[k] < bs.len() by {
            assert(t2[k] == s2[k + 1]);
        }
        lemma_sorted_unique(bs, t1, t2);
        assert(s1 =~= seq![x] + t1);
        assert(s2 =~= seq![y] + t2);
    }
}

/// A cycle's serving order is fully determined by the bindings and the events:
/// any two orders that meet `is_plan` for the same input are the same, so
/// conflicting commands for one device always land in the same order and the
/// last in zone-id order wins.
pub proof fn lemma_plan_is_determined(
    bs: Seq<Binding>,
    events: Seq<ZoneEvent>,
    s1: Seq<usize>,
    s2: Seq<usize>,
)
    requires
        is_plan(bs, events, s1),
        is_plan(bs, events, s2),
    ensures
        s1 == s2,
{
    assert forall|x: usize| s1.contains(x) <==> s2.contains(x) by {
        if s1.contains(x) {
            let k = choose|k: int| 0 <= k < s1.len() && s1[k] == x;
            assert(s1[k] < bs.len());
            assert(fired(bs[x as int], events));
        }
        if s2.contains(x) {
            let k = choose|k: int| 0 <= k < s2.len() && s2[k] == x;
            assert(s2[k] < bs.len());
            assert(fired(bs[x as int], events));
        }
    }
    lemma_sorted_unique(bs, s1, s2);
}

/// What became of one fired binding in a dispatch cycle.
#[derive(Debug)]
pub struct DispatchRecord {
    pub binding: usize,
    pub state: ActivationState,
    pub errors: Vec<DeviceError>,
}

/// The attempt outcomes a record stands for: its failures, then the success if
/// it was sent.
pub open spec fn record_outcomes(r: DispatchRecord) -> Seq<bool> {
    if r.state is Sent {
        failures(r.errors@.len()).push(true)
    } else {
        failures(r.errors@.len())
    }
}

/// The record ends its activation, `Sent` or `Dropped` after at most
/// `max_attempts` tries, in the state its outcomes lead to.
pub open spec fn record_settled(r: DispatchRecord, max_attempts: u32) -> bool {
    &&& r.state is Sent || r.state is Dropped
    &&& r.state == run_attempts(record_outcomes(r), max_attempts)
    &&& r.state is Sent ==> r.errors@.len() < max_attempts
    &&& r.state is Dropped ==> r.errors@.len() == max_attempts
}

/// How many times the record's command was handed to its device.
pub open spec fn attempts_of(r: DispatchRecord) -> nat {
    if r.state is Sent {
        r.errors@.len() + 1
    } else {
        r.errors@.len()
    }
}

/// The (device id, command) of binding `b`, `n` times over.
pub open spec fn repeated(bs: Seq<Binding>, b: int, n: nat) -> Seq<(Seq<char>, Seq<char>)> {
    Seq::new(n, |i: int| (bs[b].device_id@, bs[b].command@))
}

/// Everything the records say was handed to devices, record after record.
pub open spec fn handed_for(bs: Seq<Binding>, recs: Seq<DispatchRecord>) -> Seq<(Seq<char>, Seq<char>)>
    decreases recs.len(),
{
    if recs.len() == 0 {
        Seq::empty()
    } else {
        handed_for(bs, recs.drop_last()) + repeated(bs, recs.last().binding as int, attempts_of(recs.last()))
    }
}

/// Turns zone events into device commands under a retry policy.
pub struct DispatchEngine {
    bindings: Vec<Binding>,
    policy: RetryPolicy,
}

proof fn lemma_before(bs: Seq<Binding>, a: int, i: int)
    requires
        0 <= a < i < bs.len(),
        !lex_lt(bs[i].zone_id@, bs[a].zone_id@),
    ensures
        precedes(bs, a, i),
{
    lemma_lex_total(bs[i].zone_id@, bs[a].zone_id@);
}

proof fn lemma_after(bs: Seq<Binding>, i: int, x: int, y: int)
    requires
        0 <= i < bs.len(),
        0 <= x < bs.len(),
        0 <= y < bs.len(),
        lex_lt(bs[i].zone_id@, bs[x].zone_id@),
        x == y || precedes(bs, x, y),
    ensures
        precedes(bs, i, y),
{
    if x != y && lex_lt(bs[x].zone_id@, bs[y].zone_id@) {
        lemma_lex_transitive(bs[i].zone_id@, bs[x].zone_id@, bs[y].zone_id@);
    }
}

impl DispatchEngine {
    pub closed spec fn bindings(&self) -> Seq<Binding> {
        self.bindings@
    }

    pub closed spec fn policy(&self) -> RetryPolicy {
        self.policy
    }

    pub open spec fn wf(&self) -> bool {
        self.policy().max_attempts >= 1
    }

    /// Checks every binding against the zones and the registered devices and
    /// builds the engine. The first binding, in configuration order, whose zone
    /// is unknown or, failing that, whose device is unknown is reported; a policy
    /// that allows no attempt is refused.
    pub fn new<D: Device>(
        bindings: Vec<Binding>,
        policy: RetryPolicy,
        zones: &SpatialController,
        devices: &DeviceManager<D>,
    ) -> (r: Result<DispatchEngine, ConfigurationError>)
        requires
            devices.wf(),
        ensures
            (forall|k: int| 0 <= k < bindings@.len() ==> binding_known(#[trigger] bindings@[k], zones.zones(), devices.ids()))
                && policy.max_attempts >= 1 <==> r is Ok,
            r matches Ok(e) ==> e.wf() && e.bindings() == bindings@ && e.policy() == policy,
            r matches Err(ConfigurationError::UnknownZone(z)) ==> exists|k: int|
                0 <= k < bindings@.len() && (forall|j: int| 0 <= j < k ==> binding_known(#[trigger] bindings@[j], zones.zones(), devices.ids()))
                    && !has_zone_id(zones.zones(), bindings@[k].zone_id@) && z == bindings@[k].zone_id,
            r matches Err(ConfigurationError::UnknownDevice(d)) ==> exists|k: int|
                0 <= k < bindings@.len() && (forall|j: int| 0 <= j < k ==> binding_known(#[trigger] bindings@[j], zones.zones(), devices.ids()))
                    && has_zone_id(zones.zones(), bindings@[k].zone_id@)
                    && !has_id(devices.ids(), bindings@[k].device_id@) && d == bindings@[k].device_id,
            r matches Err(e) ==> e is UnknownZone || e is UnknownDevice || (e is NoAttempts
                && policy.max_attempts == 0),
    {
        let mut k: usize = 0;
        while k < bindings.len()
            invariant
                0 <= k <= bindings@.len(),
                devices.wf(),
                forall|j: int| 0 <= j < k ==> binding_known(#[trigger] bindings@[j], zones.zones(), devices.ids()),
            decreases bindings@.len() - k,
        {
            if !zones.has_zone(&bindings[k].zone_id) {
                return Err(ConfigurationError::UnknownZone(bindings[k].zone_id.clone()));
            }
            if !devices.contains(&bindings[k].device_id) {
                return Err(ConfigurationError::UnknownDevice(bindings[k].device_id.clone()));
            }
            k = k + 1;
        }
        if policy.max_attempts == 0 {
            return Err(ConfigurationError::NoAttempts);
        }
        Ok(DispatchEngine { bindings, policy })
    }

    pub fn policy_of(&self) -> (r: RetryPolicy)
        ensures
            r == self.policy(),
    {
        self.policy
    }

    /// Number of configured bindings.
    pub fn binding_count(&self) -> (r: usize)
        ensures
            r == self.bindings().len(),
    {
        self.bindings.len()
    }

    /// Serves one dispatch cycle: every binding that `events` fire, in the order
    /// of `plan`, is tried on its device until it is sent or `max_attempts`
    /// tries have failed. A failure never stops the bindings that follow.
    /// Every device the bindings name must be registered in `devices`, as `new`
    /// checked; each try hands that binding's command to its device, and the
    /// records say how many tries each binding took.
    pub fn dispatch<D: Device>(&self, events: &Vec<ZoneEvent>, devices: &mut DeviceManager<D>) -> (r: Vec<DispatchRecord>)
        requires
            self.wf(),
            old(devices).wf(),
            forall|i: int|
                0 <= i < self.bindings().len() ==> has_id(
                    old(devices).ids(),
                    #[trigger] self.bindings()[i].device_id@,
                ),
        ensures
            final(devices).wf(),
            final(devices).ids() == old(devices).ids(),
            final(devices).handed() == old(devices).handed() + handed_for(self.bindings(), r@),
            is_plan(self.bindings(), events@, r@.map_values(|x: DispatchRecord| x.binding)),
            forall|k: int| 0 <= k < r@.len() ==> record_settled(#[trigger] r@[k], self.policy().max_attempts),
    {
        let max = self.policy.max_attempts;
        let order = self.plan(events);
        let ghost ids0 = devices.ids();
        let ghost h0 = devices.handed();
        let ghost bs = self.bindings@;
        assert(h0 + handed_for(bs, Seq::<DispatchRecord>::empty()) =~= h0);
        let mut records: Vec<DispatchRecord> = Vec::new();
        let mut k: usize = 0;
        while k < order.len()
            invariant
                0 <= k <= order@.len(),
                max == self.policy().max_attempts,
                max >= 1,
                is_plan(self.bindings(), events@, order@),
                devices.wf(),
                devices.ids() == ids0,
                bs == self.bindings@,
                forall|i: int| 0 <= i < bs.len() ==> has_id(ids0, #[trigger] bs[i].device_id@),
                devices.handed() == h0 + handed_for(bs, records@),
                records@.len() == k,
                forall|q: int| 0 <= q < k ==> #[trigger] records@[q].binding == order@[q],
                forall|q: int| 0 <= q < k ==> record_settled(#[trigger] records@[q], max),
            decreases order@.len() - k,
        {
            let b = &self.bindings[order[k]];
            let mut errors: Vec<DeviceError> = Vec::new();
            let mut state = ActivationState::Pending;
            let mut done = false;
            let ghost start = devices.handed();
            let ghost bi = order@[k as int] as int;
            assert(start + repeated(bs, bi, 0) =~= start);
            while !done
                invariant
                    max >= 1,
                    devices.wf(),
                    devices.ids() == ids0,
                    bs == self.bindings@,
                    forall|i: int| 0 <= i < bs.len() ==> has_id(ids0, #[trigger] bs[i].device_id@),
                    0 <= bi < bs.len(),
                    *b == bs[bi],
                    devices.handed() == start + repeated(
                        bs,
                        bi,
                        attempts_of(DispatchRecord { binding: 0, state, errors }),
                    ),
                    errors@.len() <= max,
                    !done ==> errors@.len() < max && state == run_attempts(failures(errors@.len()), max)
                        && state == (if errors@.len() == 0 {
                        ActivationState::Pending
                    } else {
                        ActivationState::Retrying(errors@.len() as u32)
                    }),
                    done ==> record_settled(DispatchRecord { binding: 0, state, errors }, max),
                decreases max - errors@.len() + (if done { 0int } else { 1int }),
            {
                let ghost tries = attempts_of(DispatchRecord { binding: 0, state, errors });
                let sent = devices.send(&b.device_id, b.command.as_str());
                proof {
                    assert(repeated(bs, bi, tries).push((b.device_id@, b.command@)) =~= repeated(
                        bs,
                        bi,
                        tries + 1,
                    ));
                }
                match sent {
                    Ok(()) => {
                        proof {
                            lemma_retry_outcomes(errors@.len(), max);
                        }
                        state = next_state(state, true, max);
                        done = true;
                    },
                    Err(e) => {
                        proof {
                            lemma_run_failures((errors@.len() + 1) as nat, max);
                            assert(failures((errors@.len() + 1) as nat).drop_last() =~= failures(errors@.len()));
                        }
                        state = next_state(state, false, max);
                        errors.push(e);
                        if errors.len() as u64 >= max as u64 {
                            done = true;
                        }
                    },
                }
            }
            let ghost before = records@;
            let rec = DispatchRecord { binding: order[k], state, errors };
            records.push(rec);
            proof {
                assert(records@.drop_last() =~= before);
                assert(h0 + handed_for(bs, records@) =~= h0 + handed_for(bs, before) + repeated(
                    bs,
                    bi,
                    attempts_of(rec),
                ));
            }
            k = k + 1;
        }
        assert(records@.map_values(|x: DispatchRecord| x.binding) =~= order@);
        records
    }

    /// Whether `b` fires on some event of `events`.
    fn fired_by(b: &Binding, events: &Vec<ZoneEvent>) -> (r: bool)
        ensures
            r == fired(*b, events@),
    {
        let mut k: usize = 0;
        while k < events.len()
            invariant
                0 <= k <= events@.len(),
                forall|q: int| 0 <= q < k ==> !fires(*b, #[trigger] events@[q]),
            decreases events@.len() - k,
        {
            let hit = match &events[k] {
                ZoneEvent::Enter(z) => b.kind == EventKind::Enter && b.zone_id == *z,
                ZoneEvent::Exit(z) => b.kind == EventKind::Exit && b.zone_id == *z,
                ZoneEvent::Inside(z, t) => match b.kind {
                    EventKind::Inside(period) => period > 0 && *t % period == 0 && b.zone_id == *z,
                    _ => false,
                },
            };
            if hit {
                return true;
            }
            k = k + 1;
        }
        false
    }

    /// The bindings that `events` fire, each once, ordered by zone id and then
    /// by configuration order.
    pub fn plan(&self, events: &Vec<ZoneEvent>) -> (r: Vec<usize>)
        ensures
            is_plan(self.bindings(), events@, r@),
    {
        let ghost bs = self.bindings@;
        let mut out: Vec<usize> = Vec::new();
        let n = self.bindings.len();
        let mut i: usize = 0;
        while i < n
            invariant
                n == bs.len(),
                bs == self.bindings@,
                0 <= i <= n,
                forall|k: int| 0 <= k < out@.len() ==> #[trigger] out@[k] < i && fired(bs[out@[k] as int], events@),
                forall|j: int| 0 <= j < i && fired(#[trigger] bs[j], events@) ==> out@.contains(j as usize),
                forall|a: int, b: int| 0 <= a < b < out@.len() ==> precedes(bs, out@[a] as int, out@[b] as int),
            decreases n - i,
        {
            if Self::fired_by(&self.bindings[i], events) {
                let mut p: usize = 0;
                while p < out.len() && !lex_less(&self.bindings[i].zone_id, &self.bindings[out[p]].zone_id)
                    invariant
                        n == bs.len(),
                        bs == self.bindings@,
                        i < n,
                        0 <= p <= out@.len(),
                        forall|k: int| 0 <= k < out@.len() ==> #[trigger] out@[k] < i,
                        forall|q: int| 0 <= q < p ==> !lex_lt(bs[i as int].zone_id@, #[trigger] bs[out@[q] as int].zone_id@),
                    decreases out@.len() - p,
                {
                    p = p + 1;
                }
                let ghost before = out@;
                out.insert(p, i);
                assert forall|a: int, b: int| 0 <= a < b < out@.len() implies precedes(
                    bs,
                    out@[a] as int,
                    out@[b] as int,
                ) by {
                    if b < p {
                        assert(out@[a] == before[a] && out@[b] == before[b]);
                    } else if b == p {
                        assert(out@[a] == before[a]);
                        lemma_before(bs, before[a] as int, i as int);
                    } else if a == p {
                        assert(out@[b] == before[b - 1]);
                        lemma_after(bs, i as int, before[p as int] as int, before[b - 1] as int);
                    } else if a < p {
                        assert(out@[a] == before[a] && out@[b] == before[b - 1]);
                    } else {
                        assert(out@[a] == before[a - 1] && out@[b] == before[b - 1]);
                    }
                }
                assert forall|j: int| 0 <= j < i + 1 && fired(#[trigger] bs[j], events@) implies out@.contains(
                    j as usize,
                ) by {
                    if j < i {
                        let k = choose|k: int| 0 <= k < before.len() && before[k] == j as usize;
                        if k < p {
                            assert(out@[k] == before[k]);
                        } else {
                            assert(out@[k + 1] == before[k]);
                        }
                    } else {
                        assert(out@[p as int] == i);
                    }
                }
                assert forall|k: int| 0 <= k < out@.len() implies #[trigger] out@[k] < i + 1 && fired(
                    bs[out@[k] as int],
                    events@,
                ) by {
                    if k < p {
                        assert(out@[k] == before[k]);
                    } else if k > p {
                        assert(out@[k] == before[k - 1]);
                    }
                }
            }
            i = i + 1;
        }
        out
    }
}

} // verus!
