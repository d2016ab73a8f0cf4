//! The polling scheduler: the rule registry, the firing check that decides
//! whether a rule fires, the plan of one poll cycle, and the run state.

use vstd::prelude::*;
use crate::config::Schedule;
use crate::config::ScheduleView;
use crate::recurrence::LATEST_INSTANT;
use crate::recurrence::Recurrence;
use crate::recurrence::ScheduleError;
use crate::recurrence::cron_accepts;
use crate::recurrence::cron_source;
use crate::recurrence::occurrence;
use crate::recurrence::opt_int;
use crate::text::same_text;

verus! {

/// A rule is due when its next occurrence lies within this many seconds of now.
pub const EXECUTION_WINDOW_SECONDS: i64 = 5;

/// A rule that fired less than this many seconds ago does not fire again.
pub const DEDUP_INTERVAL_SECONDS: i64 = 30;

/// No rule fires until this many seconds after the scheduler started.
pub const STARTUP_GRACE_SECONDS: i64 = 10;

/// The shortest sleep between two poll cycles, in milliseconds.
pub const MIN_POLL_MILLIS: u64 = 1000;

/// Below this many milliseconds to the next occurrence the loop pauses for
/// the shortest sleep instead.
pub const NEAR_MILLIS: u64 = 100;

// ----------------------------------------------------------------------------
// The firing check
// ----------------------------------------------------------------------------

/// What the firing check decides for one rule in one cycle.
#[derive(Debug, Clone, Copy, PartialEq, Eq, Structural)]
pub enum Decision {
    Fire,
    Skip,
}

/// The occurrence `next` lies within the execution window of `now`.
pub open spec fn is_due(now: int, next: int) -> bool {
    -EXECUTION_WINDOW_SECONDS <= next - now <= EXECUTION_WINDOW_SECONDS
}

/// `now` lies within the startup grace period of a scheduler started at `start`.
pub open spec fn in_startup_grace(now: int, start: int) -> bool {
    now - start < STARTUP_GRACE_SECONDS
}

/// The rule last fired at `last`, less than the dedup interval before `now`.
pub open spec fn fired_recently(now: int, last: Option<int>) -> bool {
    match last {
        Some(l) => now - l < DEDUP_INTERVAL_SECONDS,
        None => false,
    }
}

/// The firing check lets through a rule whose next occurrence is `next`.
pub open spec fn may_fire(now: int, start: int, next: int, last: Option<int>) -> bool {
    &&& is_due(now, next)
    &&& !in_startup_grace(now, start)
    &&& !fired_recently(now, last)
}

/// Decides whether a rule whose next occurrence is `next` fires at `now`,
/// for a scheduler started at `start_time`, the rule having last fired at
/// `last_fired`.
pub fn decide(now: i64, start_time: i64, next: i64, last_fired: Option<i64>) -> (d: Decision)
    requires
        0 <= now <= LATEST_INSTANT,
        0 <= start_time <= LATEST_INSTANT,
        0 <= next,
        last_fired matches Some(l) ==> 0 <= l <= LATEST_INSTANT,
    ensures
        d == Decision::Fire <==> may_fire(
            now as int,
            start_time as int,
            next as int,
            opt_int(last_fired),
        ),
{
    let delta = next - now;
    if delta > EXECUTION_WINDOW_SECONDS || delta < -EXECUTION_WINDOW_SECONDS {
        return Decision::Skip;
    }
    if now - start_time < STARTUP_GRACE_SECONDS {
        return Decision::Skip;
    }
    match last_fired {
        Some(l) => {
            if now - l < DEDUP_INTERVAL_SECONDS {
                Decision::Skip
            } else {
                Decision::Fire
            }
        },
        None => Decision::Fire,
    }
}

// ----------------------------------------------------------------------------
// When each rule last fired
// ----------------------------------------------------------------------------

struct FiredAt {
    id: String,
    at: i64,
}

spec fn pairs(s: Seq<FiredAt>) -> Seq<(Seq<char>, int)> {
    s.map_values(|f: FiredAt| (f.id@, f.at as int))
}

/// The map from rule id to instant that a list of records stands for; a
/// later record of an id overrides an earlier one.
pub open spec fn fired_map(s: Seq<(Seq<char>, int)>) -> Map<Seq<char>, int>
    decreases s.len(),
{
    if s.len() == 0 {
        Map::empty()
    } else {
        fired_map(s.drop_last()).insert(s.last().0, s.last().1)
    }
}

pub open spec fn keys_unique(s: Seq<(Seq<char>, int)>) -> bool {
    forall|i: int, j: int| 0 <= i < j < s.len() ==> #[trigger] s[i].0 != #[trigger] s[j].0
}

pub open spec fn map_get(m: Map<Seq<char>, int>, k: Seq<char>) -> Option<int> {
    if m.contains_key(k) {
        Some(m[k])
    } else {
        None
    }
}

proof fn lemma_fired_map_index(s: Seq<(Seq<char>, int)>, i: int)
    requires
        keys_unique(s),
        0 <= i < s.len(),
    ensures
        fired_map(s).contains_key(s[i].0),
        fired_map(s)[s[i].0] == s[i].1,
    decreases s.len(),
{
    if i < s.len() - 1 {
        let t = s.drop_last();
        assert(t[i] == s[i]);
        assert(s[i].0 != s[s.len() - 1].0);
        lemma_fired_map_index(t, i);
    }
}

proof fn lemma_fired_map_key(s: Seq<(Seq<char>, int)>, k: Seq<char>)
    requires
        fired_map(s).contains_key(k),
    ensures
        exists|i: int| 0 <= i < s.len() && #[trigger] s[i].0 == k,
    decreases s.len(),
{
    if s.last().0 != k {
        let t = s.drop_last();
        lemma_fired_map_key(t, k);
        let i = choose|i: int| 0 <= i < t.len() && #[trigger] t[i].0 == k;
        assert(s[i] == t[i]);
    } else {
        assert(s[s.len() - 1].0 == k);
    }
}

proof fn lemma_fired_map_update(s: Seq<(Seq<char>, int)>, i: int, v: int)
    requires
        keys_unique(s),
        0 <= i < s.len(),
    ensures
        keys_unique(s.update(i, (s[i].0, v))),
        fired_map(s.update(i, (s[i].0, v))) =~= fired_map(s).insert(s[i].0, v),
{
    let k = s[i].0;
    let u = s.update(i, (k, v));
    assert(keys_unique(u)) by {
        assert forall|a: int, b: int| 0 <= a < b < u.len() implies #[trigger] u[a].0
            != #[trigger] u[b].0 by {
            assert(u[a].0 == s[a].0);
            assert(u[b].0 == s[b].0);
        }
    }
    let m = fired_map(s).insert(k, v);
    assert forall|q: Seq<char>| #[trigger] fired_map(u).contains_key(q) <==> m.contains_key(q) by {
        if fired_map(u).contains_key(q) {
            lemma_fired_map_key(u, q);
            let j = choose|j: int| 0 <= j < u.len() && #[trigger] u[j].0 == q;
            assert(s[j].0 == q);
            lemma_fired_map_index(s, j);
        }
        if m.contains_key(q) && q != k {
            lemma_fired_map_key(s, q);
            let j = choose|j: int| 0 <= j < s.len() && #[trigger] s[j].0 == q;
            assert(u[j].0 == q);
            lemma_fired_map_index(u, j);
        }
        if q == k {
            lemma_fired_map_index(u, i);
        }
    }
    assert forall|q: Seq<char>| #[trigger] fired_map(u).contains_key(q) implies fired_map(u)[q]
        == m[q] by {
        lemma_fired_map_key(u, q);
        let j = choose|j: int| 0 <= j < u.len() && #[trigger] u[j].0 == q;
        lemma_fired_map_index(u, j);
        if j != i {
            assert(s[j] == u[j]);
            lemma_fired_map_index(s, j);
        }
    }
}

spec fn store_ok(s: Seq<FiredAt>) -> bool {
    &&& keys_unique(pairs(s))
    &&& forall|i: int| 0 <= i < s.len() ==> 0 <= #[trigger] s[i].at <= LATEST_INSTANT
}

proof fn lemma_store_value_bound(s: Seq<FiredAt>, k: Seq<char>)
    requires
        store_ok(s),
        fired_map(pairs(s)).contains_key(k),
    ensures
        0 <= fired_map(pairs(s))[k] <= LATEST_INSTANT,
{
    let p = pairs(s);
    lemma_fired_map_key(p, k);
    let j = choose|j: int| 0 <= j < p.len() && #[trigger] p[j].0 == k;
    lemma_fired_map_index(p, j);
    assert(p[j].1 == s[j].at);
}

fn lookup_fired(store: &Vec<FiredAt>, id: &str) -> (r: Option<i64>)
    requires
        store_ok(store@),
    ensures
        opt_int(r) == map_get(fired_map(pairs(store@)), id@),
        r matches Some(l) ==> 0 <= l <= LATEST_INSTANT,
{
    let mut i: usize = 0;
    while i < store.len()
        invariant
            i <= store.len(),
            store_ok(store@),
            forall|j: int| 0 <= j < i ==> store@[j].id@ != id@,
        decreases store.len() - i,
    {
        if same_text(store[i].id.as_str(), id) {
            proof {
                assert(pairs(store@)[i as int].0 == id@);
                lemma_fired_map_index(pairs(store@), i as int);
            }
            return Some(store[i].at);
        }
        i = i + 1;
    }
    proof {
        if fired_map(pairs(store@)).contains_key(id@) {
            lemma_fired_map_key(pairs(store@), id@);
            let j = choose|j: int|
                0 <= j < pairs(store@).len() && #[trigger] pairs(store@)[j].0 == id@;
            assert(store@[j].id@ == id@);
        }
    }
    None
}

fn record_fired(store: &mut Vec<FiredAt>, id: &String, now: i64)
    requires
        store_ok(old(store)@),
        0 <= now <= LATEST_INSTANT,
    ensures
        store_ok(final(store)@),
        fired_map(pairs(final(store)@)) == fired_map(pairs(old(store)@)).insert(id@, now as int),
{
    let mut i: usize = 0;
    while i < store.len()
        invariant
            i <= store.len(),
            store@ == old(store)@,
            store_ok(old(store)@),
            0 <= now <= LATEST_INSTANT,
            forall|j: int| 0 <= j < i ==> store@[j].id@ != id@,
        decreases store.len() - i,
    {
        if same_text(store[i].id.as_str(), id.as_str()) {
            let ghost before = pairs(store@);
            store.set(i, FiredAt { id: id.clone(), at: now });
            proof {
                assert(pairs(store@) =~= before.update(i as int, (before[i as int].0, now as int)));
                lemma_fired_map_update(before, i as int, now as int);
            }
            return;
        }
        i = i + 1;
    }
    let ghost before = pairs(store@);
    store.push(FiredAt { id: id.clone(), at: now });
    proof {
        let after = pairs(store@);
        assert(after.drop_last() =~= before);
        assert(after.last() == (id@, now as int));
        assert(keys_unique(after)) by {
            assert forall|a: int, b: int| 0 <= a < b < after.len() implies #[trigger] after[a].0
                != #[trigger] after[b].0 by {
                if b == after.len() - 1 {
                    assert(after[a].0 == old(store)@[a].id@);
                } else {
                    assert(after[a] == before[a]);
                    assert(after[b] == before[b]);
                }
            }
        }
    }
}

// ----------------------------------------------------------------------------
// The rule registry
// ----------------------------------------------------------------------------

/// No two rules share an id.
pub open spec fn ids_unique(rules: Seq<ScheduleView>) -> bool {
    forall|i: int, j: int|
        0 <= i < j < rules.len() ==> #[trigger] rules[i].id != #[trigger] rules[j].id
}

/// Some rule has id `id`.
pub open spec fn has_rule(rules: Seq<ScheduleView>, id: Seq<char>) -> bool {
    exists|i: int| 0 <= i < rules.len() && #[trigger] rules[i].id == id
}

/// The position of the rule with id `id`.
pub open spec fn rule_index(rules: Seq<ScheduleView>, id: Seq<char>) -> int {
    choose|i: int| 0 <= i < rules.len() && #[trigger] rules[i].id == id
}

/// The rules after registering `r`: a rule with the same id is replaced in
/// place, else `r` is appended.
pub open spec fn with_rule(rules: Seq<ScheduleView>, r: ScheduleView) -> Seq<ScheduleView> {
    if has_rule(rules, r.id) {
        rules.update(rule_index(rules, r.id), r)
    } else {
        rules.push(r)
    }
}

/// The rules after removing the one with id `id`, if any.
pub open spec fn without_rule(rules: Seq<ScheduleView>, id: Seq<char>) -> Seq<ScheduleView> {
    if has_rule(rules, id) {
        rules.remove(rule_index(rules, id))
    } else {
        rules
    }
}

/// The rules after setting the `enabled` flag of the one with id `id`.
pub open spec fn with_enabled(rules: Seq<ScheduleView>, id: Seq<char>, enabled: bool) -> Seq<
    ScheduleView,
> {
    if has_rule(rules, id) {
        let i = rule_index(rules, id);
        rules.update(
            i,
            ScheduleView {
                id: rules[i].id,
                schedule_type: rules[i].schedule_type,
                cron: rules[i].cron,
                file: rules[i].file,
                enabled,
            },
        )
    } else {
        rules
    }
}

/// In a registry with unique ids, the rule with a given id sits at one position.
pub proof fn lemma_rule_index(rules: Seq<ScheduleView>, i: int)
    requires
        ids_unique(rules),
        0 <= i < rules.len(),
    ensures
        has_rule(rules, rules[i].id),
        rule_index(rules, rules[i].id) == i,
{
    assert(rules[i].id == rules[i].id);
    let j = rule_index(rules, rules[i].id);
    if j < i {
        assert(rules[j].id != rules[i].id);
    } else if i < j {
        assert(rules[i].id != rules[j].id);
    }
}

pub open spec fn views(v: Seq<Schedule>) -> Seq<ScheduleView> {
    v.map_values(|s: Schedule| s@)
}

pub open spec fn texts(v: Seq<String>) -> Seq<Seq<char>> {
    v.map_values(|s: String| s@)
}

// ----------------------------------------------------------------------------
// One poll cycle
// ----------------------------------------------------------------------------

/// The rule fires in a cycle at `now`: it is enabled, has a next occurrence,
/// and the firing check lets it through.
pub open spec fn rule_fires(r: ScheduleView, now: int, start: int, last: Map<Seq<char>, int>) -> bool {
    &&& r.enabled
    &&& match occurrence(r.cron, now) {
        Some(n) => may_fire(now, start, n, map_get(last, r.id)),
        None => false,
    }
}

/// The rules that fire in a cycle at `now`, in registry order.
pub open spec fn cycle_firings(
    rules: Seq<ScheduleView>,
    now: int,
    start: int,
    last: Map<Seq<char>, int>,
) -> Seq<ScheduleView>
    decreases rules.len(),
{
    if rules.len() == 0 {
        Seq::empty()
    } else {
        let p = cycle_firings(rules.drop_last(), now, start, last);
        if rule_fires(rules.last(), now, start, last) {
            p.push(rules.last())
        } else {
            p
        }
    }
}

/// The ids of the enabled rules that have no next occurrence, in registry order.
pub open spec fn cycle_unresolved(rules: Seq<ScheduleView>, now: int) -> Seq<Seq<char>>
    decreases rules.len(),
{
    if rules.len() == 0 {
        Seq::empty()
    } else {
        let p = cycle_unresolved(rules.drop_last(), now);
        if rules.last().enabled && occurrence(rules.last().cron, now) is None {
            p.push(rules.last().id)
        } else {
            p
        }
    }
}

pub open spec fn min_with(a: Option<int>, b: int) -> Option<int> {
    match a {
        Some(x) => Some(
            if b < x {
                b
            } else {
                x
            },
        ),
        None => Some(b),
    }
}

/// The earliest next occurrence over all enabled rules, due or not.
pub open spec fn cycle_earliest(rules: Seq<ScheduleView>, now: int) -> Option<int>
    decreases rules.len(),
{
    if rules.len() == 0 {
        None
    } else {
        let p = cycle_earliest(rules.drop_last(), now);
        if rules.last().enabled {
            match occurrence(rules.last().cron, now) {
                Some(n) => min_with(p, n),
                None => p,
            }
        } else {
            p
        }
    }
}

/// The record of last firings after each of `fired` fired at `now`.
pub open spec fn record_all(last: Map<Seq<char>, int>, fired: Seq<ScheduleView>, now: int) -> Map<
    Seq<char>,
    int,
>
    decreases fired.len(),
{
    if fired.len() == 0 {
        last
    } else {
        record_all(last, fired.drop_last(), now).insert(fired.last().id, now)
    }
}

/// How long the loop sleeps after a cycle at `now` whose earliest upcoming
/// occurrence is `earliest`: until that occurrence, but at least the shortest
/// sleep; the shortest sleep when it is nearer than `NEAR_MILLIS` or absent.
pub open spec fn sleep_millis(earliest: Option<int>, now: int) -> int {
    match earliest {
        Some(e) => {
            let d = (e - now) * 1000;
            if d > NEAR_MILLIS {
                if d > MIN_POLL_MILLIS {
                    d
                } else {
                    MIN_POLL_MILLIS as int
                }
            } else {
                MIN_POLL_MILLIS as int
            }
        },
        None => MIN_POLL_MILLIS as int,
    }
}

/// A notification that a rule fired.
#[derive(Debug, Clone)]
pub struct ScheduleEvent {
    pub schedule_id: String,
    pub triggered_at: i64,
}

/// What one poll cycle decided.
pub struct CyclePlan {
    /// The rules to play, in registry order.
    pub fired: Vec<Schedule>,
    /// One event per fired rule, in the same order.
    pub events: Vec<ScheduleEvent>,
    /// Ids of enabled rules whose expression has no next occurrence.
    pub unresolved: Vec<String>,
    /// The earliest next occurrence over all enabled rules.
    pub earliest: Option<i64>,
    /// How long to sleep before the next cycle.
    pub sleep_millis: u64,
}

/// The slice of a sleep of `remaining` milliseconds after which the loop
/// checks for a stop request again: at most one second.
pub fn sleep_slice_millis(remaining: u64) -> (r: u64)
    ensures
        r == if remaining < MIN_POLL_MILLIS {
            remaining
        } else {
            MIN_POLL_MILLIS
        },
{
    if remaining < MIN_POLL_MILLIS {
        remaining
    } else {
        MIN_POLL_MILLIS
    }
}

// ----------------------------------------------------------------------------
// The scheduler
// ----------------------------------------------------------------------------

/// Where the scheduler stands: not yet started, polling, asked to stop, stopped.
#[derive(Debug, Clone, Copy, PartialEq, Eq, Structural)]
pub enum Phase {
    Idle,
    Running,
    Stopping,
    Stopped,
}

struct Entry {
    rule: Schedule,
    recurrence: Recurrence,
}

spec fn entry_ok(e: Entry) -> bool {
    &&& e.recurrence.wf()
    &&& e.recurrence.text() == e.rule.cron@
}

/// The scheduler as plain values.
pub struct SchedulerView {
    pub rules: Seq<ScheduleView>,
    pub last_fired: Map<Seq<char>, int>,
    pub start_time: int,
    pub phase: Phase,
}

/// Rules, when each last fired, when the scheduler started, and its phase.
pub struct CronScheduler {
    entries: Vec<Entry>,
    fired: Vec<FiredAt>,
    start_time: i64,
    phase: Phase,
}

spec fn entry_rules(e: Seq<Entry>) -> Seq<ScheduleView> {
    e.map_values(|x: Entry| x.rule@)
}

impl View for CronScheduler {
    type V = SchedulerView;

    closed spec fn view(&self) -> SchedulerView {
        SchedulerView {
            rules: entry_rules(self.entries@),
            last_fired: fired_map(pairs(self.fired@)),
            start_time: self.start_time as int,
            phase: self.phase,
        }
    }
}

impl CronScheduler {
    /// The scheduler's invariant: rules parse, ids are unique, instants are in range.
    pub closed spec fn wf(&self) -> bool {
        &&& forall|i: int| 0 <= i < self.entries@.len() ==> entry_ok(#[trigger] self.entries@[i])
        &&& ids_unique(entry_rules(self.entries@))
        &&& store_ok(self.fired@)
        &&& 0 <= self.start_time <= LATEST_INSTANT
    }

    /// A well-formed scheduler has unique rule ids and a start time in range.
    pub proof fn lemma_wf(&self)
        requires
            self.wf(),
        ensures
            ids_unique(self@.rules),
            0 <= self@.start_time <= LATEST_INSTANT,
    {
    }

    /// A scheduler with no rules, started at `start_time`, not yet running.
    pub fn new(start_time: i64) -> (r: CronScheduler)
        requires
            0 <= start_time <= LATEST_INSTANT,
        ensures
            r.wf(),
            r@.rules.len() == 0,
            r@.last_fired == Map::<Seq<char>, int>::empty(),
            r@.start_time == start_time,
            r@.phase == Phase::Idle,
    {
        let r = CronScheduler { entries: Vec::new(), fired: Vec::new(), start_time, phase: Phase::Idle };
        proof {
            assert(entry_rules(r.entries@) =~= Seq::<ScheduleView>::empty());
            assert(pairs(r.fired@) =~= Seq::<(Seq<char>, int)>::empty());
        }
        r
    }

    fn find(&self, id: &str) -> (r: Option<usize>)
        requires
            self.wf(),
        ensures
            r matches Some(i) ==> i < self@.rules.len() && self@.rules[i as int].id == id@
                && has_rule(self@.rules, id@) && rule_index(self@.rules, id@) == i,
            r is None ==> !has_rule(self@.rules, id@),
    {
        let mut i: usize = 0;
        while i < self.entries.len()
            invariant
                i <= self.entries.len(),
                self.wf(),
                forall|j: int| 0 <= j < i ==> self.entries@[j].rule.id@ != id@,
            decreases self.entries.len() - i,
        {
            if same_text(self.entries[i].rule.id.as_str(), id) {
                proof {
                    lemma_rule_index(self@.rules, i as int);
                }
                return Some(i);
            }
            i = i + 1;
        }
        proof {
            if has_rule(self@.rules, id@) {
                let j = choose|j: int| 0 <= j < self@.rules.len() && #[trigger] self@.rules[j].id == id@;
                assert(self.entries@[j].rule@ == self@.rules[j]);
            }
        }
        None
    }

    /// Registers `schedule`, replacing a rule with the same id in place; an
    /// expression that does not parse is refused and nothing changes.
    pub fn add_schedule(&mut self, schedule: Schedule) -> (r: Result<(), ScheduleError>)
        requires
            old(self).wf(),
        ensures
            final(self).wf(),
            r is Ok <==> cron_accepts(cron_source(schedule.cron@)),
            r matches Err(e) ==> e == ScheduleError::InvalidExpression && final(self)@ == old(self)@,
            r is Ok ==> final(self)@ == (SchedulerView {
                rules: with_rule(old(self)@.rules, schedule@),
                ..old(self)@
            }),
    {
        match Recurrence::parse(schedule.cron.as_str()) {
            Err(e) => Err(e),
            Ok(recurrence) => {
                let ghost old_rules = self@.rules;
                let ghost sv = schedule@;
                let found = self.find(schedule.id.as_str());
                let entry = Entry { rule: schedule, recurrence };
                match found {
                    Some(i) => {
                        self.entries.set(i, entry);
                        proof {
                            assert(self@.rules =~= old_rules.update(i as int, sv));
                            assert(ids_unique(self@.rules)) by {
                                assert forall|a: int, b: int|
                                    0 <= a < b < self@.rules.len() implies #[trigger] self@.rules[a].id
                                    != #[trigger] self@.rules[b].id by {
                                    assert(self@.rules[a].id == old_rules[a].id);
                                    assert(self@.rules[b].id == old_rules[b].id);
                                }
                            }
                        }
                    },
                    None => {
                        self.entries.push(entry);
                        proof {
                            assert(self@.rules =~= old_rules.push(sv));
                            assert(ids_unique(self@.rules)) by {
                                assert forall|a: int, b: int|
                                    0 <= a < b < self@.rules.len() implies #[trigger] self@.rules[a].id
                                    != #[trigger] self@.rules[b].id by {
                                    if b == old_rules.len() {
                                        assert(self@.rules[a] == old_rules[a]);
                                    } else {
                                        assert(self@.rules[a] == old_rules[a]);
                                        assert(self@.rules[b] == old_rules[b]);
                                    }
                                }
                            }
                        }
                    },
                }
                proof {
                    assert forall|k: int| 0 <= k < self.entries@.len() implies entry_ok(
                        #[trigger] self.entries@[k],
                    ) by {}
                }
                Ok(())
            },
        }
    }

    /// Removes the rule with id `id`, if there is one.
    pub fn remove_schedule(&mut self, id: &str)
        requires
            old(self).wf(),
        ensures
            final(self).wf(),
            final(self)@ == (SchedulerView {
                rules: without_rule(old(self)@.rules, id@),
                ..old(self)@
            }),
    {
        let ghost old_rules = self@.rules;
        match self.find(id) {
            Some(i) => {
                self.entries.remove(i);
                proof {
                    assert(self@.rules =~= old_rules.remove(i as int));
                    assert(ids_unique(self@.rules)) by {
                        assert forall|a: int, b: int|
                            0 <= a < b < self@.rules.len() implies #[trigger] self@.rules[a].id
                            != #[trigger] self@.rules[b].id by {
                            if a < i {
                                assert(self@.rules[a] == old_rules[a]);
                            } else {
                                assert(self@.rules[a] == old_rules[a + 1]);
                            }
                            if b < i {
                                assert(self@.rules[b] == old_rules[b]);
                            } else {
                                assert(self@.rules[b] == old_rules[b + 1]);
                            }
                        }
                    }
                    assert forall|k: int| 0 <= k < self.entries@.len() implies entry_ok(
                        #[trigger] self.entries@[k],
                    ) by {
                        if k >= i {
                            assert(self.entries@[k] == old(self).entries@[k + 1]);
                        }
                    }
                }
            },
            None => {},
        }
    }

    /// Enables or disables the rule with id `id`; `NotFound` when there is none.
    pub fn set_enabled(&mut self, id: &str, enabled: bool) -> (r: Result<(), ScheduleError>)
        requires
            old(self).wf(),
        ensures
            final(self).wf(),
            r is Ok <==> has_rule(old(self)@.rules, id@),
            r matches Err(e) ==> e == ScheduleError::NotFound,
            final(self)@ == (SchedulerView {
                rules: with_enabled(old(self)@.rules, id@, enabled),
                ..old(self)@
            }),
    {
        let ghost old_rules = self@.rules;
        match self.find(id) {
            Some(i) => {
                let mut e = self.entries.remove(i);
                e.rule.enabled = enabled;
                self.entries.insert(i, e);
                proof {
                    let u = with_enabled(old_rules, id@, enabled);
                    assert(self@.rules =~= u);
                    assert(ids_unique(self@.rules)) by {
                        assert forall|a: int, b: int|
                            0 <= a < b < self@.rules.len() implies #[trigger] self@.rules[a].id
                            != #[trigger] self@.rules[b].id by {
                            assert(self@.rules[a].id == old_rules[a].id);
                            assert(self@.rules[b].id == old_rules[b].id);
                        }
                    }
                    assert forall|k: int| 0 <= k < self.entries@.len() implies entry_ok(
                        #[trigger] self.entries@[k],
                    ) by {
                        if k != i {
                            assert(self.entries@[k] == old(self).entries@[k]);
                        }
                    }
                }
                Ok(())
            },
            None => Err(ScheduleError::NotFound),
        }
    }

    /// A copy of the registered rules, in registry order.
    pub fn list(&self) -> (r: Vec<Schedule>)
        requires
            self.wf(),
        ensures
            views(r@) == self@.rules,
    {
        let mut out: Vec<Schedule> = Vec::new();
        let mut i: usize = 0;
        while i < self.entries.len()
            invariant
                i <= self.entries.len(),
                views(out@) =~= self@.rules.take(i as int),
            decreases self.entries.len() - i,
        {
            let ghost before = out@;
            out.push(self.entries[i].rule.duplicate());
            proof {
                assert(views(out@) =~= views(before).push(self@.rules[i as int]));
                assert(self@.rules.take(i as int + 1) =~= self@.rules.take(i as int).push(
                    self@.rules[i as int],
                ));
            }
            i = i + 1;
        }
        assert(self@.rules.take(self.entries.len() as int) =~= self@.rules);
        out
    }

    /// Runs one poll cycle at `now`: decides which enabled rules fire,
    /// records that they fired at `now`, and finds the earliest upcoming
    /// occurrence and how long to sleep.  Rules without a next occurrence are
    /// reported and otherwise skipped.
    pub fn run_cycle(&mut self, now: i64) -> (plan: CyclePlan)
        requires
            old(self).wf(),
            1 <= now <= LATEST_INSTANT,
        ensures
            final(self).wf(),
            views(plan.fired@) == cycle_firings(
                old(self)@.rules,
                now as int,
                old(self)@.start_time,
                old(self)@.last_fired,
            ),
            final(self)@ == (SchedulerView {
                last_fired: record_all(old(self)@.last_fired, views(plan.fired@), now as int),
                ..old(self)@
            }),
            plan.events@.len() == plan.fired@.len(),
            forall|i: int|
                0 <= i < plan.events@.len() ==> (#[trigger] plan.events@[i]).schedule_id@
                    == plan.fired@[i].id@ && plan.events@[i].triggered_at == now,
            texts(plan.unresolved@) == cycle_unresolved(old(self)@.rules, now as int),
            opt_int(plan.earliest) == cycle_earliest(old(self)@.rules, now as int),
            plan.sleep_millis as int == sleep_millis(
                cycle_earliest(old(self)@.rules, now as int),
                now as int,
            ),
    {
        let ghost rules = self@.rules;
        let ghost start = self@.start_time;
        let ghost last = self@.last_fired;
        let mut fired: Vec<Schedule> = Vec::new();
        let mut unresolved: Vec<String> = Vec::new();
        let mut earliest: Option<i64> = None;
        let mut i: usize = 0;
        proof {
            assert(rules.take(0) =~= Seq::<ScheduleView>::empty());
            assert(views(fired@) =~= Seq::<ScheduleView>::empty());
            assert(texts(unresolved@) =~= Seq::<Seq<char>>::empty());
        }
        while i < self.entries.len()
            invariant
                self.wf(),
                self@ == old(self)@,
                1 <= now <= LATEST_INSTANT,
                rules == self@.rules,
                start == self@.start_time,
                last == self@.last_fired,
                i <= self.entries.len(),
                views(fired@) == cycle_firings(rules.take(i as int), now as int, start, last),
                texts(unresolved@) == cycle_unresolved(rules.take(i as int), now as int),
                opt_int(earliest) == cycle_earliest(rules.take(i as int), now as int),
                earliest matches Some(e) ==> now <= e <= LATEST_INSTANT,
            decreases self.entries.len() - i,
        {
            let ghost t = rules.take(i as int + 1);
            proof {
                assert(t.drop_last() =~= rules.take(i as int));
                assert(t.last() == rules[i as int]);
                assert(rules[i as int] == self.entries@[i as int].rule@);
            }
            let entry = &self.entries[i];
            if entry.rule.enabled {
                proof {
                    assert(entry_ok(self.entries@[i as int]));
                }
                match entry.recurrence.next_occurrence(now) {
                    Some(next) => {
                        let last_at = lookup_fired(&self.fired, entry.rule.id.as_str());
                        if decide(now, self.start_time, next, last_at) == Decision::Fire {
                            let ghost before = fired@;
                            fired.push(entry.rule.duplicate());
                            proof {
                                assert(views(fired@) =~= views(before).push(entry.rule@));
                            }
                        }
                        earliest =
                        match earliest {
                            Some(e) => {
                                if next < e {
                                    Some(next)
                                } else {
                                    Some(e)
                                }
                            },
                            None => Some(next),
                        };
                    },
                    None => {
                        let ghost before = unresolved@;
                        unresolved.push(entry.rule.id.clone());
                        proof {
                            assert(texts(unresolved@) =~= texts(before).push(entry.rule.id@));
                        }
                    },
                }
            }
            i = i + 1;
        }
        proof {
            assert(rules.take(self.entries.len() as int) =~= rules);
        }
        let mut events: Vec<ScheduleEvent> = Vec::new();
        let mut k: usize = 0;
        proof {
            assert(views(fired@).take(0) =~= Seq::<ScheduleView>::empty());
        }
        while k < fired.len()
            invariant
                k <= fired.len(),
                1 <= now <= LATEST_INSTANT,
                store_ok(self.fired@),
                self.entries@ == old(self).entries@,
                self.start_time == old(self).start_time,
                self.phase == old(self).phase,
                old(self).wf(),
                fired_map(pairs(self.fired@)) == record_all(
                    last,
                    views(fired@).take(k as int),
                    now as int,
                ),
                last == old(self)@.last_fired,
                events@.len() == k,
                forall|j: int|
                    0 <= j < k ==> (#[trigger] events@[j]).schedule_id@ == fired@[j].id@
                        && events@[j].triggered_at == now,
            decreases fired.len() - k,
        {
            record_fired(&mut self.fired, &fired[k].id, now);
            events.push(ScheduleEvent { schedule_id: fired[k].id.clone(), triggered_at: now });
            proof {
                let v = views(fired@);
                assert(v.take(k as int + 1).drop_last() =~= v.take(k as int));
                assert(v.take(k as int + 1).last() == fired@[k as int]@);
            }
            k = k + 1;
        }
        proof {
            assert(views(fired@).take(fired.len() as int) =~= views(fired@));
        }
        let sleep = match earliest {
            Some(e) => {
                let d: u64 = ((e - now) as u64) * 1000;
                if d > NEAR_MILLIS {
                    if d > MIN_POLL_MILLIS {
                        d
                    } else {
                        MIN_POLL_MILLIS
                    }
                } else {
                    MIN_POLL_MILLIS
                }
            },
            None => MIN_POLL_MILLIS,
        };
        CyclePlan { fired, events, unresolved, earliest, sleep_millis: sleep }
    }

    /// The phase the scheduler is in.
    pub fn phase(&self) -> (r: Phase)
        ensures
            r == self@.phase,
    {
        self.phase
    }

    /// The instant the scheduler started.
    pub fn start_time(&self) -> (r: i64)
        ensures
            r == self@.start_time,
    {
        self.start_time
    }

    /// Whether the poll loop should run another cycle.
    pub fn is_running(&self) -> (r: bool)
        ensures
            r == (self@.phase == Phase::Running),
    {
        self.phase == Phase::Running
    }

    /// Starts polling at `now`, which becomes the start of the startup grace
    /// period; only a scheduler that never ran can start.
    pub fn start(&mut self, now: i64) -> (r: bool)
        requires
            old(self).wf(),
            0 <= now <= LATEST_INSTANT,
        ensures
            final(self).wf(),
            r == (old(self)@.phase == Phase::Idle),
            final(self)@ == (SchedulerView {
                phase: if r {
                    Phase::Running
                } else {
                    old(self)@.phase
                },
                start_time: if r {
                    now as int
                } else {
                    old(self)@.start_time
                },
                ..old(self)@
            }),
    {
        if self.phase == Phase::Idle {
            self.phase = Phase::Running;
            self.start_time = now;
            true
        } else {
            false
        }
    }

    /// Asks the poll loop to stop; before a start, and a second time, it
    /// changes nothing.
    pub fn stop(&mut self)
        requires
            old(self).wf(),
        ensures
            final(self).wf(),
            final(self)@ == (SchedulerView {
                phase: match old(self)@.phase {
                    Phase::Running => Phase::Stopping,
                    p => p,
                },
                ..old(self)@
            }),
    {
        self.phase = match self.phase {
            Phase::Idle => Phase::Idle,
            Phase::Running => Phase::Stopping,
            Phase::Stopping => Phase::Stopping,
            Phase::Stopped => Phase::Stopped,
        };
    }

    /// Records that the poll loop has exited after a stop request.
    pub fn finish(&mut self)
        requires
            old(self).wf(),
        ensures
            final(self).wf(),
            final(self)@ == (SchedulerView {
                phase: if old(self)@.phase == Phase::Stopping {
                    Phase::Stopped
                } else {
                    old(self)@.phase
                },
                ..old(self)@
            }),
    {
        if self.phase == Phase::Stopping {
            self.phase = Phase::Stopped;
        }
    }
}

// ----------------------------------------------------------------------------
// Laws
// ----------------------------------------------------------------------------

/// Every rule that fires in a cycle passes the firing check in that cycle.
pub proof fn lemma_firings_fire(
    rules: Seq<ScheduleView>,
    now: int,
    start: int,
    last: Map<Seq<char>, int>,
    k: int,
)
    requires
        0 <= k < cycle_firings(rules, now, start, last).len(),
    ensures
        rule_fires(cycle_firings(rules, now, start, last)[k], now, start, last),
    decreases rules.len(),
{
    let p = cycle_firings(rules.drop_last(), now, start, last);
    if k < p.len() {
        lemma_firings_fire(rules.drop_last(), now, start, last, k);
    }
}

/// After recording firings at `now`, each fired id was last fired at `now`.
pub proof fn lemma_record_all_fired(
    last: Map<Seq<char>, int>,
    fired: Seq<ScheduleView>,
    now: int,
    k: int,
)
    requires
        0 <= k < fired.len(),
    ensures
        map_get(record_all(last, fired, now), fired[k].id) == Some(now),
    decreases fired.len(),
{
    if k < fired.len() - 1 {
        let f = fired.drop_last();
        assert(f[k] == fired[k]);
        lemma_record_all_fired(last, f, now, k);
    }
}

/// At most once: a rule that fired in a cycle at `now1` does not fire again in
/// a cycle at `now2` less than the dedup interval later, run on the record of
/// firings that the first cycle left.
pub proof fn lemma_at_most_once(
    rules: Seq<ScheduleView>,
    start: int,
    last: Map<Seq<char>, int>,
    now1: int,
    now2: int,
    k: int,
)
    requires
        now1 <= now2 < now1 + DEDUP_INTERVAL_SECONDS,
        0 <= k < cycle_firings(rules, now1, start, last).len(),
    ensures
        forall|j: int|
            0 <= j < cycle_firings(
                rules,
                now2,
                start,
                record_all(last, cycle_firings(rules, now1, start, last), now1),
            ).len() ==> (#[trigger] cycle_firings(
                rules,
                now2,
                start,
                record_all(last, cycle_firings(rules, now1, start, last), now1),
            )[j]).id != cycle_firings(rules, now1, start, last)[k].id,
{
    let f1 = cycle_firings(rules, now1, start, last);
    let m = record_all(last, f1, now1);
    let f2 = cycle_firings(rules, now2, start, m);
    lemma_record_all_fired(last, f1, now1, k);
    assert forall|j: int| 0 <= j < f2.len() implies (#[trigger] f2[j]).id != f1[k].id by {
        lemma_firings_fire(rules, now2, start, m, j);
    }
}

/// Recording firings leaves the record of an id that did not fire unchanged.
pub proof fn lemma_record_all_other(
    last: Map<Seq<char>, int>,
    fired: Seq<ScheduleView>,
    now: int,
    id: Seq<char>,
)
    requires
        forall|j: int| 0 <= j < fired.len() ==> (#[trigger] fired[j]).id != id,
    ensures
        map_get(record_all(last, fired, now), id) == map_get(last, id),
    decreases fired.len(),
{
    if fired.len() > 0 {
        let f = fired.drop_last();
        assert forall|j: int| 0 <= j < f.len() implies (#[trigger] f[j]).id != id by {
            assert(f[j] == fired[j]);
        }
        assert(fired[fired.len() - 1].id != id);
        lemma_record_all_other(last, f, now, id);
    }
}

/// At most once, over any number of cycles: while less than the dedup
/// interval has passed since a rule last fired at `l`, a cycle does not fire
/// it and leaves its record at `l`; so every cycle after a firing and within
/// the interval skips it, however many there are.
pub proof fn lemma_skip_keeps_record(
    rules: Seq<ScheduleView>,
    start: int,
    last: Map<Seq<char>, int>,
    now: int,
    id: Seq<char>,
    l: int,
)
    requires
        map_get(last, id) == Some(l),
        l <= now < l + DEDUP_INTERVAL_SECONDS,
    ensures
        forall|j: int|
            0 <= j < cycle_firings(rules, now, start, last).len() ==> (#[trigger] cycle_firings(
                rules,
                now,
                start,
                last,
            )[j]).id != id,
        map_get(record_all(last, cycle_firings(rules, now, start, last), now), id) == Some(l),
{
    let f = cycle_firings(rules, now, start, last);
    assert forall|j: int| 0 <= j < f.len() implies (#[trigger] f[j]).id != id by {
        lemma_firings_fire(rules, now, start, last, j);
    }
    lemma_record_all_other(last, f, now, id);
}

/// Startup suppression: within the grace period after start, no rule fires.
pub proof fn lemma_startup_quiet(
    rules: Seq<ScheduleView>,
    now: int,
    start: int,
    last: Map<Seq<char>, int>,
)
    requires
        now - start < STARTUP_GRACE_SECONDS,
    ensures
        cycle_firings(rules, now, start, last).len() == 0,
    decreases rules.len(),
{
    if rules.len() > 0 {
        lemma_startup_quiet(rules.drop_last(), now, start, last);
    }
}

/// Registering a rule keeps the ids unique, and leaves the rule at the
/// position that now holds its id.
pub proof fn lemma_with_rule(rules: Seq<ScheduleView>, r: ScheduleView)
    requires
        ids_unique(rules),
    ensures
        ids_unique(with_rule(rules, r)),
        has_rule(with_rule(rules, r), r.id),
        with_rule(rules, r)[rule_index(with_rule(rules, r), r.id)] == r,
{
    let u = with_rule(rules, r);
    if has_rule(rules, r.id) {
        let i = rule_index(rules, r.id);
        assert(ids_unique(u)) by {
            assert forall|a: int, b: int| 0 <= a < b < u.len() implies #[trigger] u[a].id
                != #[trigger] u[b].id by {
                assert(u[a].id == rules[a].id);
                assert(u[b].id == rules[b].id);
            }
        }
        lemma_rule_index(u, i);
    } else {
        assert(ids_unique(u)) by {
            assert forall|a: int, b: int| 0 <= a < b < u.len() implies #[trigger] u[a].id
                != #[trigger] u[b].id by {
                assert(u[a] == rules[a]);
                if b < rules.len() {
                    assert(u[b] == rules[b]);
                }
            }
        }
        lemma_rule_index(u, rules.len() as int);
    }
}

/// Idempotent registration: registering the same rule twice leaves the same
/// rules as registering it once.
pub proof fn lemma_add_idempotent(rules: Seq<ScheduleView>, r: ScheduleView)
    requires
        ids_unique(rules),
    ensures
        with_rule(with_rule(rules, r), r) == with_rule(rules, r),
{
    let u = with_rule(rules, r);
    lemma_with_rule(rules, r);
    assert(u.update(rule_index(u, r.id), r) =~= u);
}

/// After removing an id from a registry with unique ids, no rule has it, so
/// no later cycle evaluates it.
pub proof fn lemma_removed_gone(rules: Seq<ScheduleView>, id: Seq<char>)
    requires
        ids_unique(rules),
    ensures
        !has_rule(without_rule(rules, id), id),
{
    if has_rule(rules, id) {
        let i = rule_index(rules, id);
        let u = without_rule(rules, id);
        if has_rule(u, id) {
            let j = choose|j: int| 0 <= j < u.len() && #[trigger] u[j].id == id;
            if j < i {
                assert(u[j] == rules[j]);
            } else {
                assert(u[j] == rules[j + 1]);
            }
        }
    }
}

} // verus!
