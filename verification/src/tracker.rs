//! How long each agent has been in its current status.
//!
//! herdr doesn't timestamp status changes, so they are timed here by diffing successive
//! `agent.list` snapshots. The clock is a parameter, so tests can drive it by hand.

use vstd::prelude::*;
use crate::herdr::Agent;

verus! {

/// A source of the current time in milliseconds.
pub trait Clock {
    /// Whether `t` is a reading this clock can give.
    spec fn can_read(&self, t: u64) -> bool;

    fn now_ms(&self) -> (r: u64)
        ensures
            self.can_read(r),
    ;
}

#[verifier::external_type_specification]
#[verifier::external_body]
pub struct ExSystemTime(std::time::SystemTime);

/// `SystemTime::now()`: the system clock's reading. Nothing is claimed of it: it is the
/// time.
#[verifier::external_body]
fn system_now() -> std::time::SystemTime {
    std::time::SystemTime::now()
}

/// `SystemTime::duration_since(UNIX_EPOCH)`: how long after the Unix epoch the reading
/// `t` is, or `None` where `t` is before the epoch. Nothing is claimed of the duration.
#[verifier::external_body]
fn since_unix_epoch(t: &std::time::SystemTime) -> Option<std::time::Duration> {
    match t.duration_since(std::time::UNIX_EPOCH) {
        Ok(d) => Some(d),
        Err(_) => None,
    }
}

/// `Duration::as_millis`: the whole milliseconds in a duration. Nothing is claimed of the
/// number, since a duration is opaque here.
#[verifier::external_body]
fn whole_millis(d: &std::time::Duration) -> u128 {
    d.as_millis()
}

/// The reading of a clock `since_epoch_ms` milliseconds after the Unix epoch (`None`: before
/// the epoch). A clock set before the epoch reads as 0; milliseconds beyond `u64` wrap, as
/// `as u64` does.
pub open spec fn reading_of(since_epoch_ms: Option<u128>) -> u64 {
    match since_epoch_ms {
        Some(ms) => ms as u64,
        None => 0,
    }
}

/// The clock reading for a time given as milliseconds since the Unix epoch.
pub fn clock_reading(since_epoch_ms: Option<u128>) -> (r: u64)
    ensures
        r == reading_of(since_epoch_ms),
{
    match since_epoch_ms {
        Some(ms) => ms as u64,
        None => 0,
    }
}

/// Milliseconds since the Unix epoch by the system clock.
fn wall_clock_ms() -> (r: u64)
    ensures
        exists|m: Option<u128>| r == reading_of(m),
{
    let now = system_now();
    let ms = match since_unix_epoch(&now) {
        Some(d) => Some(whole_millis(&d)),
        None => None,
    };
    clock_reading(ms)
}

/// The system's wall clock.
pub struct WallClock;

impl Clock for WallClock {
    /// The wall clock can read any time since the epoch (or 0 before it).
    open spec fn can_read(&self, t: u64) -> bool {
        exists|m: Option<u128>| t == reading_of(m)
    }

    fn now_ms(&self) -> (r: u64) {
        wall_clock_ms()
    }
}

/// A clock read by calling a function, such as a settable clock in a test.
pub struct FnClock<F: Fn() -> u64> {
    f: F,
}

impl<F: Fn() -> u64> FnClock<F> {
    #[verifier::type_invariant]
    spec fn callable(self) -> bool {
        call_requires(self.f, ())
    }

    pub closed spec fn function(self) -> F {
        self.f
    }

    pub fn new(f: F) -> (r: Self)
        requires
            call_requires(f, ()),
        ensures
            r.function() == f,
    {
        FnClock { f }
    }
}

impl<F: Fn() -> u64> Clock for FnClock<F> {
    /// A reading is whatever the clock's function can return when called.
    open spec fn can_read(&self, t: u64) -> bool {
        call_ensures(self.function(), (), t)
    }

    fn now_ms(&self) -> (r: u64)
        ensures
            call_ensures(self.function(), (), r),
    {
        proof {
            use_type_invariant(self);
        }
        (self.f)()
    }
}

struct Entry {
    id: String,
    status: String,
    since: u64,
}

/// The status each agent was last seen in and the time it entered that status.
pub struct AttentionTracker<C: Clock = WallClock> {
    entries: Vec<Entry>,
    clock: C,
}

/// Per agent id: the status it is in and since when.
pub type Timers = Map<Seq<char>, (Seq<char>, u64)>;

spec fn timers_of(es: Seq<Entry>) -> Timers
    decreases es.len(),
{
    if es.len() == 0 {
        Map::empty()
    } else {
        timers_of(es.drop_last()).insert(es.last().id@, (es.last().status@, es.last().since))
    }
}

spec fn distinct_ids(es: Seq<Entry>) -> bool {
    forall|a: int, b: int| 0 <= a < b < es.len() ==> (#[trigger] es[a]).id@ != (#[trigger] es[b]).id@
}

/// One snapshot entry taken in at time `t`: a new agent, or one whose status changed,
/// starts its timer at `t`; an agent whose status is unchanged keeps its timer.
pub open spec fn record_one(m: Timers, a: Agent, t: u64) -> Timers {
    if m.dom().contains(a.terminal_id@) && m[a.terminal_id@].0 == a.status@ {
        m
    } else {
        m.insert(a.terminal_id@, (a.status@, t))
    }
}

/// A snapshot's entries taken in, in order, at time `t`.
pub open spec fn record(m: Timers, agents: Seq<Agent>, t: u64) -> Timers
    decreases agents.len(),
{
    if agents.len() == 0 {
        m
    } else {
        record_one(record(m, agents.drop_last(), t), agents.last(), t)
    }
}

/// Whether a snapshot lists the agent `id`.
pub open spec fn listed(agents: Seq<Agent>, id: Seq<char>) -> bool {
    exists|i: int| 0 <= i < agents.len() && (#[trigger] agents[i]).terminal_id@ == id
}

/// The timers after a snapshot at time `t`: its entries taken in, and agents it no
/// longer lists forgotten.
pub open spec fn observed(m: Timers, agents: Seq<Agent>, t: u64) -> Timers {
    record(m, agents, t).restrict(Set::new(|id: Seq<char>| listed(agents, id)))
}

/// How long agent `id` has been in its status at time `now`: 0 when it is not tracked,
/// and 0 rather than a wrapped-around age when the clock reads before its start.
pub open spec fn age(m: Timers, id: Seq<char>, now: u64) -> u64 {
    if m.dom().contains(id) && now >= m[id].1 {
        (now - m[id].1) as u64
    } else {
        0
    }
}

/// Entries `j..` of a snapshot that do not name `k` leave `k`'s timer as the first `j`
/// entries set it.
proof fn lemma_record_suffix(m: Timers, agents: Seq<Agent>, t: u64, j: int, k: Seq<char>)
    requires
        0 <= j <= agents.len(),
        forall|i: int| j <= i < agents.len() ==> (#[trigger] agents[i]).terminal_id@ != k,
    ensures
        record(m, agents, t).dom().contains(k) == record(m, agents.take(j), t).dom().contains(k),
        record(m, agents, t).dom().contains(k) ==> record(m, agents, t)[k] == record(m, agents.take(j), t)[k],
    decreases agents.len(),
{
    if agents.len() == j {
        assert(agents.take(j) =~= agents);
    } else {
        let d = agents.drop_last();
        assert(d.take(j) =~= agents.take(j));
        assert(agents.last() == agents[agents.len() - 1]);
        lemma_record_suffix(m, d, t, j, k);
    }
}

/// An agent a snapshot does not list is forgotten.
pub proof fn law_unlisted_agents_are_forgotten(m: Timers, agents: Seq<Agent>, t: u64, id: Seq<char>)
    requires
        !listed(agents, id),
    ensures
        !observed(m, agents, t).dom().contains(id),
{
}

/// An agent a snapshot lists is tracked afterwards, in the status of its last listing.
pub proof fn law_listed_agents_are_tracked(m: Timers, agents: Seq<Agent>, t: u64, i: int)
    requires
        0 <= i < agents.len(),
        forall|j: int| i < j < agents.len() ==> (#[trigger] agents[j]).terminal_id@ != agents[i].terminal_id@,
    ensures
        observed(m, agents, t).dom().contains(agents[i].terminal_id@),
        observed(m, agents, t)[agents[i].terminal_id@].0 == agents[i].status@,
{
    let k = agents[i].terminal_id@;
    lemma_record_suffix(m, agents, t, i + 1, k);
    assert(agents.take(i + 1).drop_last() =~= agents.take(i));
    assert(agents.take(i + 1).last() == agents[i]);
    assert(listed(agents, k));
}

/// An agent listed once, in the status it was already tracked in, keeps its timer.
pub proof fn law_unchanged_status_keeps_timer(m: Timers, agents: Seq<Agent>, t: u64, i: int)
    requires
        0 <= i < agents.len(),
        forall|j: int| 0 <= j < agents.len() && j != i ==> (#[trigger] agents[j]).terminal_id@ != agents[i].terminal_id@,
        m.dom().contains(agents[i].terminal_id@),
        m[agents[i].terminal_id@].0 == agents[i].status@,
    ensures
        observed(m, agents, t).dom().contains(agents[i].terminal_id@),
        observed(m, agents, t)[agents[i].terminal_id@] == m[agents[i].terminal_id@],
{
    let k = agents[i].terminal_id@;
    lemma_record_suffix(m, agents, t, i + 1, k);
    let pre = agents.take(i);
    assert forall|j: int| 0 <= j < pre.len() implies (#[trigger] pre[j]).terminal_id@ != k by {
        assert(pre[j] == agents[j]);
    }
    lemma_record_suffix(m, pre, t, 0, k);
    assert(pre.take(0) =~= Seq::<Agent>::empty());
    assert(agents.take(i + 1).drop_last() =~= pre);
    assert(agents.take(i + 1).last() == agents[i]);
    assert(listed(agents, k));
}

/// An agent listed once, in a status other than the one it was tracked in (or not
/// tracked before), starts its timer at the snapshot's time.
pub proof fn law_status_change_restarts_timer(m: Timers, agents: Seq<Agent>, t: u64, i: int)
    requires
        0 <= i < agents.len(),
        forall|j: int| 0 <= j < agents.len() && j != i ==> (#[trigger] agents[j]).terminal_id@ != agents[i].terminal_id@,
        !(m.dom().contains(agents[i].terminal_id@) && m[agents[i].terminal_id@].0 == agents[i].status@),
    ensures
        observed(m, agents, t).dom().contains(agents[i].terminal_id@),
        observed(m, agents, t)[agents[i].terminal_id@] == (agents[i].status@, t),
{
    let k = agents[i].terminal_id@;
    lemma_record_suffix(m, agents, t, i + 1, k);
    let pre = agents.take(i);
    assert forall|j: int| 0 <= j < pre.len() implies (#[trigger] pre[j]).terminal_id@ != k by {
        assert(pre[j] == agents[j]);
    }
    lemma_record_suffix(m, pre, t, 0, k);
    assert(pre.take(0) =~= Seq::<Agent>::empty());
    assert(agents.take(i + 1).drop_last() =~= pre);
    assert(agents.take(i + 1).last() == agents[i]);
    assert(listed(agents, k));
}

/// An age never exceeds the clock reading it is taken at: a clock that steps backwards
/// gives 0, not a wrapped-around huge age.
pub proof fn law_age_is_bounded_by_the_clock(m: Timers, id: Seq<char>, now: u64)
    ensures
        age(m, id, now) <= now,
        m.dom().contains(id) && now < m[id].1 ==> age(m, id, now) == 0,
{
}

impl<C: Clock> View for AttentionTracker<C> {
    type V = Timers;

    closed spec fn view(&self) -> Timers {
        timers_of(self.entries@)
    }
}

proof fn lemma_timers_push(s: Seq<Entry>, e: Entry)
    ensures
        timers_of(s.push(e)) == timers_of(s).insert(e.id@, (e.status@, e.since)),
{
    assert(s.push(e).drop_last() =~= s);
}

proof fn lemma_timers_update(s: Seq<Entry>, idx: int, e: Entry)
    requires
        0 <= idx < s.len(),
        e.id@ == s[idx].id@,
        distinct_ids(s),
    ensures
        timers_of(s.update(idx, e)) == timers_of(s).insert(e.id@, (e.status@, e.since)),
    decreases s.len(),
{
    let t = s.update(idx, e);
    if idx == s.len() - 1 {
        assert(t.drop_last() =~= s.drop_last());
        assert(timers_of(t) =~= timers_of(s).insert(e.id@, (e.status@, e.since)));
    } else {
        assert(t.drop_last() =~= s.drop_last().update(idx, e));
        assert(s.last() == s[s.len() - 1]);
        lemma_timers_update(s.drop_last(), idx, e);
        assert(timers_of(t) =~= timers_of(s).insert(e.id@, (e.status@, e.since)));
    }
}

proof fn lemma_timers_lookup(s: Seq<Entry>, k: Seq<char>)
    requires
        distinct_ids(s),
    ensures
        timers_of(s).dom().contains(k) <==> exists|i: int| 0 <= i < s.len() && (#[trigger] s[i]).id@ == k,
        forall|i: int| 0 <= i < s.len() && (#[trigger] s[i]).id@ == k ==> timers_of(s)[k] == (s[i].status@, s[i].since),
    decreases s.len(),
{
    if s.len() > 0 {
        lemma_timers_lookup(s.drop_last(), k);
        assert(s.last() == s[s.len() - 1]);
        if timers_of(s).dom().contains(k) && s.last().id@ != k {
            let i = choose|i: int| 0 <= i < s.drop_last().len() && (#[trigger] s.drop_last()[i]).id@ == k;
            assert(s[i] == s.drop_last()[i]);
        }
        if exists|i: int| 0 <= i < s.len() && (#[trigger] s[i]).id@ == k {
            let i = choose|i: int| 0 <= i < s.len() && (#[trigger] s[i]).id@ == k;
            if i < s.len() - 1 {
                assert(s.drop_last()[i] == s[i]);
            }
        }
        assert forall|i: int| 0 <= i < s.len() && (#[trigger] s[i]).id@ == k implies timers_of(s)[k] == (
        s[i].status@, s[i].since) by {
            if i < s.len() - 1 {
                assert(s.drop_last()[i] == s[i]);
            }
        }
    }
}

fn find_entry(es: &Vec<Entry>, id: &String) -> (r: Option<usize>)
    ensures
        r matches Some(j) ==> j < es@.len() && es@[j as int].id@ == id@,
        r is None ==> forall|j: int| 0 <= j < es@.len() ==> (#[trigger] es@[j]).id@ != id@,
{
    for j in 0..es.len()
        invariant
            forall|k: int| 0 <= k < j ==> (#[trigger] es@[k]).id@ != id@,
    {
        if es[j].id == *id {
            return Some(j);
        }
    }
    None
}

fn is_listed(agents: &[Agent], id: &String) -> (r: bool)
    ensures
        r == listed(agents@, id@),
{
    for i in 0..agents.len()
        invariant
            forall|k: int| 0 <= k < i ==> (#[trigger] agents@[k]).terminal_id@ != id@,
    {
        if agents[i].terminal_id == *id {
            return true;
        }
    }
    false
}

impl<C: Clock> AttentionTracker<C> {
    /// Each agent id is tracked once.
    #[verifier::type_invariant]
    spec fn wf(self) -> bool {
        distinct_ids(self.entries@)
    }

    pub closed spec fn clock(&self) -> C {
        self.clock
    }

    /// Takes in a snapshot made at time `now`: reset the timer for any agent whose status
    /// changed, and forget agents that are no longer listed.
    pub fn observe_at(&mut self, agents: &[Agent], now: u64)
        ensures
            final(self)@ == observed(old(self)@, agents@, now),
            forall|id: Seq<char>| !listed(agents@, id) ==> !(#[trigger] final(self)@.dom().contains(id)),
            final(self).clock() == old(self).clock(),
    {
        proof {
            use_type_invariant(&*self);
        }
        let ghost m0 = self@;
        let mut entries: Vec<Entry> = Vec::new();
        std::mem::swap(&mut entries, &mut self.entries);
        assert(agents@.take(0) =~= Seq::<Agent>::empty());
        for i in 0..agents.len()
            invariant
                distinct_ids(entries@),
                timers_of(entries@) == record(m0, agents@.take(i as int), now),
        {
            let a = &agents[i];
            let ghost es = entries@;
            proof {
                assert(agents@.take(i + 1).drop_last() =~= agents@.take(i as int));
                assert(agents@.take(i + 1).last() == agents@[i as int]);
                lemma_timers_lookup(es, a.terminal_id@);
            }
            match find_entry(&entries, &a.terminal_id) {
                Some(j) => {
                    if entries[j].status != a.status {
                        let e = Entry { id: a.terminal_id.clone(), status: a.status.clone(), since: now };
                        proof {
                            lemma_timers_update(es, j as int, e);
                        }
                        entries.set(j, e);
                        proof {
                            assert forall|x: int, y: int| 0 <= x < y < entries@.len() implies (
                            #[trigger] entries@[x]).id@ != (#[trigger] entries@[y]).id@ by {
                                assert(entries@[x].id@ == es[x].id@ && entries@[y].id@ == es[y].id@);
                            }
                        }
                    }
                },
                None => {
                    let e = Entry { id: a.terminal_id.clone(), status: a.status.clone(), since: now };
                    proof {
                        lemma_timers_push(es, e);
                    }
                    entries.push(e);
                    proof {
                        assert forall|x: int, y: int| 0 <= x < y < entries@.len() implies (
                        #[trigger] entries@[x]).id@ != (#[trigger] entries@[y]).id@ by {
                            if y < es.len() {
                                assert(entries@[x] == es[x] && entries@[y] == es[y]);
                            } else {
                                assert(entries@[x] == es[x]);
                            }
                        }
                    }
                },
            }
        }
        proof {
            assert(agents@.take(agents.len() as int) =~= agents@);
        }
        let ghost recorded = entries@;
        let ghost keep = Set::new(|id: Seq<char>| listed(agents@, id));
        let mut kept: Vec<Entry> = Vec::new();
        let old_entries = entries;
        let n = old_entries.len();
        assert(recorded.take(0) =~= Seq::<Entry>::empty());
        assert(timers_of(Seq::<Entry>::empty()).restrict(keep) =~= Map::<Seq<char>, (Seq<char>, u64)>::empty());
        for k in 0..n
            invariant
                n == old_entries.len(),
                old_entries@ == recorded,
                distinct_ids(recorded),
                keep == Set::new(|id: Seq<char>| listed(agents@, id)),
                timers_of(kept@) == timers_of(recorded.take(k as int)).restrict(keep),
                distinct_ids(kept@),
                forall|x: int| 0 <= x < kept@.len() ==> exists|y: int| 0 <= y < k && (#[trigger] kept@[x]).id@ == (#[trigger] recorded[y]).id@,
        {
            proof {
                assert(recorded.take(k + 1).drop_last() =~= recorded.take(k as int));
                assert(recorded.take(k + 1).last() == recorded[k as int]);
            }
            if is_listed(agents, &old_entries[k].id) {
                let e = Entry {
                    id: old_entries[k].id.clone(),
                    status: old_entries[k].status.clone(),
                    since: old_entries[k].since,
                };
                let ghost before = kept@;
                proof {
                    lemma_timers_push(before, e);
                    assert(timers_of(before.push(e)) =~= timers_of(recorded.take(k + 1)).restrict(keep));
                }
                kept.push(e);
                proof {
                    assert forall|x: int, y: int| 0 <= x < y < kept@.len() implies (
                    #[trigger] kept@[x]).id@ != (#[trigger] kept@[y]).id@ by {
                        if y == before.len() {
                            assert(kept@[x] == before[x]);
                            let z = choose|z: int| 0 <= z < k && (#[trigger] before[x]).id@ == (#[trigger] recorded[z]).id@;
                        } else {
                            assert(kept@[x] == before[x] && kept@[y] == before[y]);
                        }
                    }
                    assert forall|x: int| 0 <= x < kept@.len() implies exists|y: int| 0 <= y < k + 1 && (
                    #[trigger] kept@[x]).id@ == (#[trigger] recorded[y]).id@ by {
                        if x == before.len() {
                            assert(kept@[x].id@ == recorded[k as int].id@);
                        } else {
                            assert(kept@[x] == before[x]);
                            let z = choose|z: int| 0 <= z < k && (#[trigger] before[x]).id@ == (#[trigger] recorded[z]).id@;
                            assert(0 <= z < k + 1 && kept@[x].id@ == recorded[z].id@);
                        }
                    }
                }
            } else {
                proof {
                    assert(timers_of(kept@) =~= timers_of(recorded.take(k + 1)).restrict(keep));
                }
            }
        }
        proof {
            assert(recorded.take(n as int) =~= recorded);
            assert(timers_of(kept@) =~= observed(m0, agents@, now));
        }
        self.entries = kept;
    }

    /// Records a fresh snapshot at the clock's current time: reset the timer for any agent
    /// whose status changed, and forget agents that are no longer listed.
    pub fn observe(&mut self, agents: &[Agent])
        ensures
            exists|t: u64| old(self).clock().can_read(t) && final(self)@ == observed(old(self)@, agents@, t),
            forall|id: Seq<char>| !listed(agents@, id) ==> !(#[trigger] final(self)@.dom().contains(id)),
            final(self).clock() == old(self).clock(),
    {
        let t = self.clock.now_ms();
        self.observe_at(agents, t);
    }

    /// Milliseconds the agent has been in its current status at time `now` (0 if unknown).
    pub fn in_status_ms_at(&self, terminal_id: &str, now: u64) -> (r: u64)
        ensures
            r == age(self@, terminal_id@, now),
    {
        proof {
            use_type_invariant(self);
        }
        let id = String::from_str(terminal_id);
        proof {
            lemma_timers_lookup(self.entries@, id@);
        }
        match find_entry(&self.entries, &id) {
            // saturating, not a subtraction: a wall clock can step backwards, and a negative
            // age would wrap into a huge one and pin the agent to the top.
            Some(j) => now.saturating_sub(self.entries[j].since),
            None => 0,
        }
    }

    /// Milliseconds the agent has been in its current status (0 if unknown), by the clock.
    pub fn in_status_ms(&self, terminal_id: &str) -> (r: u64)
        ensures
            self@.dom().contains(terminal_id@) ==> exists|t: u64| self.clock().can_read(t) && r == age(self@, terminal_id@, t),
            !self@.dom().contains(terminal_id@) ==> r == 0,
    {
        proof {
            use_type_invariant(self);
        }
        let id = String::from_str(terminal_id);
        proof {
            lemma_timers_lookup(self.entries@, id@);
        }
        match find_entry(&self.entries, &id) {
            Some(_) => {
                let t = self.clock.now_ms();
                let r = self.in_status_ms_at(terminal_id, t);
                assert(self.clock().can_read(t) && r == age(self@, terminal_id@, t));
                r
            },
            None => 0,
        }
    }
}

impl AttentionTracker<WallClock> {
    /// A tracker on the system's wall clock, tracking nothing yet.
    pub fn new() -> (r: Self)
        ensures
            r@ == Map::<Seq<char>, (Seq<char>, u64)>::empty(),
            r.clock() == WallClock,
    {
        AttentionTracker { entries: Vec::new(), clock: WallClock }
    }
}

impl<F: Fn() -> u64> AttentionTracker<FnClock<F>> {
    /// A tracker read against the given clock, tracking nothing yet. It keeps the clock and
    /// reads the time only by calling it.
    pub fn with_clock(now: F) -> (r: Self)
        requires
            call_requires(now, ()),
        ensures
            r@ == Map::<Seq<char>, (Seq<char>, u64)>::empty(),
            r.clock().function() == now,
    {
        AttentionTracker { entries: Vec::new(), clock: FnClock::new(now) }
    }
}

impl Default for AttentionTracker<WallClock> {
    fn default() -> (r: Self)
        ensures
            r@ == Map::<Seq<char>, (Seq<char>, u64)>::empty(),
            r.clock() == WallClock,
    {
        Self::new()
    }
}

} // verus!
