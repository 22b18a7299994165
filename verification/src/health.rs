//! Interface-group failover: health counters, the choice of the active
//! interface, the group state and the check scheduler.
use vstd::prelude::*;

use crate::assoc::{assoc_find, assoc_view, keys_distinct, lemma_assoc_at, lemma_assoc_push, lemma_assoc_update};
use crate::config::{opt_str_text, opt_text, is_member, InterfaceGroupConfig};
use crate::policy::{find_interface, interface_views, spec_device_name, spec_find_interface, NetworkInterface};
use crate::text::{chars_of, dec, owned, push_decimal, push_str, same_chars, str_eq, trim, trim_string};

verus! {

/// The recorded health of one interface of a group.
pub struct InterfaceHealthRow {
    pub interface: String,
    pub state: String,
    pub consecutive_successes: i64,
    pub consecutive_failures: i64,
    pub last_checked_at: Option<String>,
    pub last_ok_at: Option<String>,
    pub last_error: Option<String>,
    pub latency_ms: Option<i64>,
}

/// The outcome of one pass over the interface groups.
pub struct HealthCheckResult {
    pub changed: bool,
    pub checked_groups: usize,
}

// ---------------------------------------------------------------------------
// Health of one interface
// ---------------------------------------------------------------------------

/// The row recorded for `name`: the last row that names it.
pub open spec fn row_for(rows: Seq<InterfaceHealthRow>, name: Seq<char>) -> Option<InterfaceHealthRow>
    decreases rows.len(),
{
    if rows.len() == 0 {
        None
    } else if rows.last().interface@ == name {
        Some(rows.last())
    } else {
        row_for(rows.drop_last(), name)
    }
}

/// Consecutive failures at which an interface counts as unhealthy (at least one).
pub open spec fn failure_limit(g: InterfaceGroupConfig) -> int {
    if g.failure_threshold == 0 {
        1
    } else {
        g.failure_threshold as int
    }
}

/// Consecutive successes at which the primary counts as recovered (at least one).
pub open spec fn recovery_limit(g: InterfaceGroupConfig) -> int {
    if g.recovery_threshold == 0 {
        1
    } else {
        g.recovery_threshold as int
    }
}

pub open spec fn spec_unhealthy(g: InterfaceGroupConfig, rows: Seq<InterfaceHealthRow>, name: Seq<char>) -> bool {
    match row_for(rows, name) {
        Some(r) => r.consecutive_failures >= failure_limit(g),
        None => false,
    }
}

pub open spec fn spec_recovered(g: InterfaceGroupConfig, rows: Seq<InterfaceHealthRow>, name: Seq<char>) -> bool {
    match row_for(rows, name) {
        Some(r) => r.consecutive_successes >= recovery_limit(g) && r.consecutive_failures == 0,
        None => false,
    }
}

pub open spec fn spec_candidate(g: InterfaceGroupConfig, rows: Seq<InterfaceHealthRow>, name: Seq<char>) -> bool {
    match row_for(rows, name) {
        Some(r) => r.consecutive_successes > 0 && r.consecutive_failures < failure_limit(g),
        None => false,
    }
}

pub open spec fn spec_has_failures(rows: Seq<InterfaceHealthRow>, name: Seq<char>) -> bool {
    match row_for(rows, name) {
        Some(r) => r.consecutive_failures > 0,
        None => false,
    }
}

/// The row recorded for `name`, searching from the last row.
pub fn find_row<'a>(rows: &'a Vec<InterfaceHealthRow>, name: &str) -> (r: Option<&'a InterfaceHealthRow>)
    ensures
        r matches Some(x) ==> row_for(rows@, name@) == Some(*x),
        r is None ==> row_for(rows@, name@) is None,
{
    let key = chars_of(name);
    let mut i = rows.len();
    assert(rows@.take(i as int) == rows@);
    while i > 0
        invariant
            i <= rows.len(),
            key@ == name@,
            row_for(rows@, name@) == row_for(rows@.take(i as int), name@),
        decreases i,
    {
        let ghost pre = rows@.take(i as int);
        assert(pre.drop_last() == rows@.take(i - 1));
        assert(pre.last() == rows@[i - 1]);
        let item = chars_of(rows[i - 1].interface.as_str());
        if same_chars(item.as_slice(), key.as_slice()) {
            assert(row_for(pre, name@) == Some(rows@[i - 1]));
            return Some(&rows[i - 1]);
        }
        assert(row_for(pre, name@) == row_for(rows@.take(i - 1), name@));
        i -= 1;
    }
    None
}

fn limit_of(threshold: u32) -> (r: i64)
    ensures
        r == (if threshold == 0 { 1 } else { threshold as int }),
{
    if threshold == 0 {
        1
    } else {
        threshold as i64
    }
}

/// Whether `interface` reached the failure threshold.
pub fn is_unhealthy(group: &InterfaceGroupConfig, interface: &str, rows: &Vec<InterfaceHealthRow>) -> (r: bool)
    ensures
        r == spec_unhealthy(*group, rows@, interface@),
{
    match find_row(rows, interface) {
        Some(row) => row.consecutive_failures >= limit_of(group.failure_threshold),
        None => false,
    }
}

/// Whether `interface` reached the recovery threshold with no failure since.
pub fn is_recovered(group: &InterfaceGroupConfig, interface: &str, rows: &Vec<InterfaceHealthRow>) -> (r: bool)
    ensures
        r == spec_recovered(*group, rows@, interface@),
{
    match find_row(rows, interface) {
        Some(row) => row.consecutive_successes >= limit_of(group.recovery_threshold)
            && row.consecutive_failures == 0,
        None => false,
    }
}

/// Whether `interface` may take over: it succeeded last and is under the failure threshold.
pub fn is_candidate_healthy(group: &InterfaceGroupConfig, interface: &str, rows: &Vec<InterfaceHealthRow>) -> (r: bool)
    ensures
        r == spec_candidate(*group, rows@, interface@),
{
    match find_row(rows, interface) {
        Some(row) => row.consecutive_successes > 0 && row.consecutive_failures < limit_of(
            group.failure_threshold,
        ),
        None => false,
    }
}

/// Whether `interface` failed its last check.
pub fn has_failures(interface: &str, rows: &Vec<InterfaceHealthRow>) -> (r: bool)
    ensures
        r == spec_has_failures(rows@, interface@),
{
    match find_row(rows, interface) {
        Some(row) => row.consecutive_failures > 0,
        None => false,
    }
}

// ---------------------------------------------------------------------------
// The active interface
// ---------------------------------------------------------------------------

/// The previously active interface if it still belongs to the group, else the primary.
pub open spec fn effective_previous(g: InterfaceGroupConfig, prev: Option<Seq<char>>) -> Seq<char> {
    match prev {
        Some(p) => if g.members().contains(p) {
            p
        } else {
            g.members()[0]
        },
        None => g.members()[0],
    }
}

/// Index of the first member at or after `i` that may take over.
pub open spec fn first_candidate_from(g: InterfaceGroupConfig, rows: Seq<InterfaceHealthRow>, i: int) -> Option<int>
    decreases g.members().len() - i,
{
    if i < 0 || i >= g.members().len() {
        None
    } else if spec_candidate(g, rows, g.members()[i]) {
        Some(i)
    } else {
        first_candidate_from(g, rows, i + 1)
    }
}

/// The interface a group routes through after a round of checks.
pub open spec fn spec_choose_active(
    g: InterfaceGroupConfig,
    prev: Option<Seq<char>>,
    rows: Seq<InterfaceHealthRow>,
) -> Option<Seq<char>> {
    if g.members().len() == 0 {
        None
    } else {
        let primary = g.members()[0];
        let previous = effective_previous(g, prev);
        if g.prefer_primary && spec_recovered(g, rows, primary) {
            Some(primary)
        } else if !spec_unhealthy(g, rows, previous) {
            Some(previous)
        } else {
            match first_candidate_from(g, rows, 0) {
                Some(i) => Some(g.members()[i]),
                None => Some(previous),
            }
        }
    }
}

pub proof fn lemma_first_candidate_from(g: InterfaceGroupConfig, rows: Seq<InterfaceHealthRow>, i: int)
    requires
        0 <= i <= g.members().len(),
    ensures
        first_candidate_from(g, rows, i) matches Some(k) ==> i <= k < g.members().len()
            && spec_candidate(g, rows, g.members()[k]) && forall|j: int|
            i <= j < k ==> !spec_candidate(g, rows, #[trigger] g.members()[j]),
        first_candidate_from(g, rows, i) is None ==> forall|j: int|
            i <= j < g.members().len() ==> !spec_candidate(g, rows, #[trigger] g.members()[j]),
    decreases g.members().len() - i,
{
    if i < g.members().len() && !spec_candidate(g, rows, g.members()[i]) {
        lemma_first_candidate_from(g, rows, i + 1);
    }
}

/// Copies a string.
fn copy_string(s: &String) -> (r: String)
    ensures
        r@ == s@,
{
    s.clone()
}

#[verifier::loop_isolation(false)]
/// Chooses the interface that a group routes through after its members were
/// checked: the recovered primary when the group prefers it, else the
/// previous interface while it stays under the failure threshold, else the
/// first member that may take over, else the previous interface.
pub fn choose_active_interface(
    group: &InterfaceGroupConfig,
    previous_active: Option<&str>,
    rows: &Vec<InterfaceHealthRow>,
) -> (r: Option<String>)
    ensures
        opt_text(r) == spec_choose_active(*group, opt_str_text(previous_active), rows@),
{
    let primary = match group.primary_interface() {
        Some(p) => p,
        None => return None,
    };
    let previous: &str = match previous_active {
        Some(p) => {
            let pc = chars_of(p);
            if is_member(group, pc.as_slice()) {
                p
            } else {
                primary
            }
        },
        None => primary,
    };
    assert(previous@ == effective_previous(*group, opt_str_text(previous_active)));
    if group.prefer_primary && is_recovered(group, primary, rows) {
        return Some(owned(primary));
    }
    if !is_unhealthy(group, previous, rows) {
        return Some(owned(previous));
    }
    let mut i: usize = 0;
    while i < group.interfaces.len()
        invariant
            i <= group.interfaces.len(),
            first_candidate_from(*group, rows@, i as int) == first_candidate_from(*group, rows@, 0),
        decreases group.interfaces.len() - i,
    {
        assert(group.members()[i as int] == group.interfaces@[i as int]@);
        if is_candidate_healthy(group, group.interfaces[i].as_str(), rows) {
            assert(first_candidate_from(*group, rows@, i as int) == Some(i as int));
            return Some(copy_string(&group.interfaces[i]));
        }
        i += 1;
    }
    Some(owned(previous))
}

// ---------------------------------------------------------------------------
// The group state
// ---------------------------------------------------------------------------

/// How a group stands after a round of checks.
#[derive(PartialEq, Eq, Structural, Clone, Copy)]
pub enum GroupHealth {
    Healthy,
    Degraded,
    Error,
}

pub open spec fn spec_group_health(
    g: InterfaceGroupConfig,
    active: Option<Seq<char>>,
    rows: Seq<InterfaceHealthRow>,
) -> GroupHealth {
    match active {
        None => GroupHealth::Error,
        Some(a) => if spec_unhealthy(g, rows, a) {
            GroupHealth::Error
        } else if spec_has_failures(rows, a) || g.members().len() == 0 || g.members()[0] != a {
            GroupHealth::Degraded
        } else {
            GroupHealth::Healthy
        },
    }
}

/// The name under which a group state is stored and reported.
pub open spec fn health_name(h: GroupHealth) -> Seq<char> {
    match h {
        GroupHealth::Healthy => "healthy"@,
        GroupHealth::Degraded => "degraded"@,
        GroupHealth::Error => "error"@,
    }
}

pub fn group_health(group: &InterfaceGroupConfig, active: Option<&str>, rows: &Vec<InterfaceHealthRow>) -> (r: GroupHealth)
    ensures
        r == spec_group_health(*group, opt_str_text(active), rows@),
{
    let active = match active {
        Some(a) => a,
        None => return GroupHealth::Error,
    };
    if is_unhealthy(group, active, rows) {
        return GroupHealth::Error;
    }
    let primary_is_active = match group.primary_interface() {
        Some(p) => str_eq(p, active),
        None => false,
    };
    if has_failures(active, rows) || !primary_is_active {
        GroupHealth::Degraded
    } else {
        GroupHealth::Healthy
    }
}

pub fn health_text(h: GroupHealth) -> (r: String)
    ensures
        r@ == health_name(h),
{
    match h {
        GroupHealth::Healthy => owned("healthy"),
        GroupHealth::Degraded => owned("degraded"),
        GroupHealth::Error => owned("error"),
    }
}

/// The state of a group: `error` without an active interface or when it is
/// unhealthy, `degraded` when it failed its last check or is not the primary,
/// else `healthy`.
pub fn group_state(group: &InterfaceGroupConfig, active: Option<&str>, rows: &Vec<InterfaceHealthRow>) -> (r: String)
    ensures
        r@ == health_name(spec_group_health(*group, opt_str_text(active), rows@)),
{
    health_text(group_health(group, active, rows))
}


// ---------------------------------------------------------------------------
// Failover laws
// ---------------------------------------------------------------------------

/// Whatever the checks gave, a non-empty group routes through one of its own
/// interfaces: failover never leaves the group (no fallback to another uplink).
pub proof fn lemma_active_stays_in_group(
    g: InterfaceGroupConfig,
    prev: Option<Seq<char>>,
    rows: Seq<InterfaceHealthRow>,
)
    requires
        g.members().len() > 0,
    ensures
        spec_choose_active(g, prev, rows) matches Some(a) && g.members().contains(a),
{
    lemma_first_candidate_from(g, rows, 0);
    let previous = effective_previous(g, prev);
    assert(g.members().contains(previous)) by {
        if !(prev matches Some(p) && g.members().contains(p)) {
            assert(g.members()[0] == previous);
        }
    }
    if let Some(i) = first_candidate_from(g, rows, 0) {
        assert(g.members()[i] == g.members()[i]);
    }
}

/// Once the active interface reaches the failure threshold, traffic moves to
/// the first interface of the group, in the configured order, that succeeded
/// its last check and is under the threshold (unless the primary has
/// recovered and the group prefers it).
pub proof fn lemma_failover_to_first_healthy(
    g: InterfaceGroupConfig,
    prev: Option<Seq<char>>,
    rows: Seq<InterfaceHealthRow>,
    k: int,
)
    requires
        0 <= k < g.members().len(),
        spec_unhealthy(g, rows, effective_previous(g, prev)),
        !(g.prefer_primary && spec_recovered(g, rows, g.members()[0])),
        spec_candidate(g, rows, g.members()[k]),
        forall|j: int| 0 <= j < k ==> !spec_candidate(g, rows, #[trigger] g.members()[j]),
    ensures
        spec_choose_active(g, prev, rows) == Some(g.members()[k]),
{
    lemma_first_candidate_from(g, rows, 0);
    match first_candidate_from(g, rows, 0) {
        Some(i) => {
            if i < k {
                assert(!spec_candidate(g, rows, g.members()[i]));
            }
            if k < i {
                assert(!spec_candidate(g, rows, g.members()[k]));
            }
        },
        None => {
            assert(!spec_candidate(g, rows, g.members()[k]));
        },
    }
}

/// A group that prefers its primary returns to it as soon as the primary
/// reached the recovery threshold without failing since.
pub proof fn lemma_recovered_primary_returns(
    g: InterfaceGroupConfig,
    prev: Option<Seq<char>>,
    rows: Seq<InterfaceHealthRow>,
)
    requires
        g.members().len() > 0,
        g.prefer_primary,
        spec_recovered(g, rows, g.members()[0]),
    ensures
        spec_choose_active(g, prev, rows) == Some(g.members()[0]),
{
}

/// An active interface under the failure threshold stays active (unless the
/// recovered primary takes over): there is no flapping on a single failure.
pub proof fn lemma_active_kept_below_threshold(
    g: InterfaceGroupConfig,
    prev: Option<Seq<char>>,
    rows: Seq<InterfaceHealthRow>,
)
    requires
        g.members().len() > 0,
        !spec_unhealthy(g, rows, effective_previous(g, prev)),
        !(g.prefer_primary && spec_recovered(g, rows, g.members()[0])),
    ensures
        spec_choose_active(g, prev, rows) == Some(effective_previous(g, prev)),
{
}

/// When every interface of a group reached the failure threshold, the group
/// keeps its last active interface and reports the `error` state.
pub proof fn lemma_all_unhealthy_keeps_previous(
    g: InterfaceGroupConfig,
    prev: Option<Seq<char>>,
    rows: Seq<InterfaceHealthRow>,
)
    requires
        g.members().len() > 0,
        forall|j: int| 0 <= j < g.members().len() ==> spec_unhealthy(g, rows, #[trigger] g.members()[j]),
    ensures
        spec_choose_active(g, prev, rows) == Some(effective_previous(g, prev)),
        spec_group_health(g, spec_choose_active(g, prev, rows), rows) == GroupHealth::Error,
{
    lemma_first_candidate_from(g, rows, 0);
    let previous = effective_previous(g, prev);
    assert(spec_unhealthy(g, rows, g.members()[0]));
    assert(!spec_recovered(g, rows, g.members()[0]));
    assert(g.members().contains(previous)) by {
        if !(prev matches Some(p) && g.members().contains(p)) {
            assert(g.members()[0] == previous);
        }
    }
    let j = choose|j: int| 0 <= j < g.members().len() && g.members()[j] == previous;
    assert(spec_unhealthy(g, rows, g.members()[j]));
    if let Some(i) = first_candidate_from(g, rows, 0) {
        assert(spec_unhealthy(g, rows, g.members()[i]));
        assert(false);
    }
}

// ---------------------------------------------------------------------------
// Recording a check
// ---------------------------------------------------------------------------

fn copy_opt(o: &Option<String>) -> (r: Option<String>)
    ensures
        opt_text(r) == opt_text(*o),
{
    match o {
        Some(s) => Some(copy_string(s)),
        None => None,
    }
}

/// The health row after one more check of `interface`: a success counts one
/// more consecutive success and clears the failures, a failure counts one more
/// consecutive failure and clears the successes.
pub fn next_health_row(
    previous: Option<&InterfaceHealthRow>,
    interface: &str,
    ok: bool,
    latency_ms: Option<i64>,
    error: Option<&str>,
    now: &str,
) -> (r: InterfaceHealthRow)
    requires
        previous matches Some(p) ==> p.consecutive_successes < i64::MAX && p.consecutive_failures
            < i64::MAX,
    ensures
        r.interface@ == interface@,
        r.state@ == (if ok { "healthy"@ } else { "unhealthy"@ }),
        r.consecutive_successes == (if !ok { 0 } else {
            match previous {
                Some(p) => p.consecutive_successes + 1,
                None => 1,
            }
        }),
        r.consecutive_failures == (if ok { 0 } else {
            match previous {
                Some(p) => p.consecutive_failures + 1,
                None => 1,
            }
        }),
        opt_text(r.last_checked_at) == Some(now@),
        opt_text(r.last_ok_at) == (if ok { Some(now@) } else {
            match previous {
                Some(p) => opt_text(p.last_ok_at),
                None => None,
            }
        }),
        opt_text(r.last_error) == opt_str_text(error),
        r.latency_ms == latency_ms,
{
    let successes: i64 = if ok {
        match previous {
            Some(p) => p.consecutive_successes + 1,
            None => 1,
        }
    } else {
        0
    };
    let failures: i64 = if ok {
        0
    } else {
        match previous {
            Some(p) => p.consecutive_failures + 1,
            None => 1,
        }
    };
    let state = if ok {
        owned("healthy")
    } else {
        owned("unhealthy")
    };
    let last_ok_at = if ok {
        Some(owned(now))
    } else {
        match previous {
            Some(p) => copy_opt(&p.last_ok_at),
            None => None,
        }
    };
    InterfaceHealthRow {
        interface: owned(interface),
        state,
        consecutive_successes: successes,
        consecutive_failures: failures,
        last_checked_at: Some(owned(now)),
        last_ok_at,
        last_error: match error {
            Some(e) => Some(owned(e)),
            None => None,
        },
        latency_ms,
    }
}

/// The active interface recorded for a group, as the rest of the program sees
/// it: the stored one while it still belongs to the group, else the primary.
pub fn stored_active_interface(group: &InterfaceGroupConfig, stored: Option<&str>) -> (r: Option<String>)
    ensures
        opt_text(r) == (if group.members().len() == 0 {
            match stored {
                Some(s) => if group.members().contains(s@) { Some(s@) } else { None },
                None => None,
            }
        } else {
            Some(effective_previous(*group, opt_str_text(stored)))
        }),
        r matches Some(a) ==> group.members().contains(a@),
{
    if let Some(s) = stored {
        let sc = chars_of(s);
        if is_member(group, sc.as_slice()) {
            return Some(owned(s));
        }
    }
    match group.primary_interface() {
        Some(p) => {
            assert(group.members()[0] == group.members()[0]);
            Some(owned(p))
        },
        None => None,
    }
}

/// Whether a group is probed at all: its checks are enabled and it has interfaces.
pub fn group_probe_needed(group: &InterfaceGroupConfig) -> (r: bool)
    ensures
        r == (group.check_enabled && group.interfaces@.len() > 0),
{
    group.check_enabled && group.interfaces.len() > 0
}

/// What a finished round of checks of one group records.
pub struct GroupCheckOutcome {
    pub active: Option<String>,
    pub changed: bool,
    pub state: String,
    pub error: Option<String>,
}

/// The decisions that follow the checks of one group's interfaces: the new
/// active interface, whether it changed, the group state, and the error to
/// record (a fixed message for `error`, the last check error for `degraded`).
pub fn conclude_group_check(
    group: &InterfaceGroupConfig,
    previous_active: Option<&str>,
    rows: &Vec<InterfaceHealthRow>,
    last_error: Option<&str>,
) -> (r: GroupCheckOutcome)
    ensures
        opt_text(r.active) == spec_choose_active(*group, opt_str_text(previous_active), rows@),
        r.changed == (opt_text(r.active) != opt_str_text(previous_active)),
        r.state@ == health_name(spec_group_health(*group, opt_text(r.active), rows@)),
        spec_group_health(*group, opt_text(r.active), rows@) == GroupHealth::Error ==> opt_text(
            r.error,
        ) == Some("all group interfaces are unhealthy"@),
        spec_group_health(*group, opt_text(r.active), rows@) == GroupHealth::Degraded ==> opt_text(
            r.error,
        ) == opt_str_text(last_error),
        spec_group_health(*group, opt_text(r.active), rows@) == GroupHealth::Healthy ==> r.error is None,
{
    let active = choose_active_interface(group, previous_active, rows);
    let changed = match (&active, previous_active) {
        (Some(a), Some(p)) => !str_eq(a.as_str(), p),
        (None, None) => false,
        _ => true,
    };
    let health = match &active {
        Some(a) => group_health(group, Some(a.as_str()), rows),
        None => group_health(group, None, rows),
    };
    let error = match health {
        GroupHealth::Error => Some(owned("all group interfaces are unhealthy")),
        GroupHealth::Degraded => match last_error {
            Some(e) => Some(owned(e)),
            None => None,
        },
        GroupHealth::Healthy => None,
    };
    GroupCheckOutcome { active, changed, state: health_text(health), error }
}

// ---------------------------------------------------------------------------
// Scheduling checks
// ---------------------------------------------------------------------------

/// When each group was last checked, on a monotonic clock in nanoseconds.
pub struct HealthCheckScheduler {
    last_checked: Vec<(String, u64)>,
}

/// Whole seconds from `last` to `now` (zero if the clock did not advance).
pub open spec fn elapsed_secs(last: u64, now: u64) -> int {
    if now >= last {
        (now - last) / 1_000_000_000
    } else {
        0
    }
}

/// Seconds between two checks of a group (at least one).
pub open spec fn interval_limit(g: InterfaceGroupConfig) -> int {
    if g.check_interval_seconds == 0 {
        1
    } else {
        g.check_interval_seconds as int
    }
}

/// Whether a group is due for a check.
pub open spec fn spec_should_check(m: Map<Seq<char>, u64>, g: InterfaceGroupConfig, force: bool, now: u64) -> bool {
    force || (g.check_enabled && (m.contains_key(g.id@) ==> elapsed_secs(m[g.id@], now)
        >= interval_limit(g)))
}

impl HealthCheckScheduler {
    pub closed spec fn well_formed(&self) -> bool {
        keys_distinct(self.last_checked@)
    }

    /// Group id to the time of its last check.
    pub closed spec fn view(&self) -> Map<Seq<char>, u64> {
        assoc_view(self.last_checked@)
    }

    /// A scheduler that has checked nothing yet.
    pub fn new() -> (r: Self)
        ensures
            r.well_formed(),
            r.view() == Map::<Seq<char>, u64>::empty(),
    {
        let r = HealthCheckScheduler { last_checked: Vec::new() };
        assert(r.view() =~= Map::<Seq<char>, u64>::empty());
        r
    }

    /// Records that the group `group_id` was checked at `now`.
    pub fn record_check(&mut self, group_id: &str, now: u64)
        requires
            old(self).well_formed(),
        ensures
            final(self).well_formed(),
            final(self).view() == old(self).view().insert(group_id@, now),
    {
        let key = chars_of(group_id);
        match assoc_find(&self.last_checked, key.as_slice()) {
            Some(j) => {
                let k = owned(group_id);
                let ghost before = self.last_checked@;
                self.last_checked[j] = (k, now);
                proof {
                    lemma_assoc_update(before, j as int, k, now);
                }
            },
            None => {
                let k = owned(group_id);
                proof {
                    lemma_assoc_push(self.last_checked@, k, now);
                }
                self.last_checked.push((k, now));
            },
        }
    }

    fn last_check_of(&self, group_id: &str) -> (r: Option<u64>)
        requires
            self.well_formed(),
        ensures
            r matches Some(t) ==> self.view().contains_key(group_id@) && self.view()[group_id@] == t,
            r is None ==> !self.view().contains_key(group_id@),
    {
        let key = chars_of(group_id);
        match assoc_find(&self.last_checked, key.as_slice()) {
            Some(j) => {
                proof {
                    lemma_assoc_at(self.last_checked@, j as int);
                }
                Some(self.last_checked[j].1)
            },
            None => None,
        }
    }
}

impl Default for HealthCheckScheduler {
    fn default() -> (r: Self)
        ensures
            r.well_formed(),
            r.view() == Map::<Seq<char>, u64>::empty(),
    {
        HealthCheckScheduler::new()
    }
}

/// Whether a group is due for a check at `now`: always when forced; else when
/// its checks are enabled and it was never checked or at least its interval
/// (one second at least) has passed since the last check.
pub fn should_check_group(
    scheduler: &HealthCheckScheduler,
    group: &InterfaceGroupConfig,
    force: bool,
    now: u64,
) -> (r: bool)
    requires
        scheduler.well_formed(),
    ensures
        r == spec_should_check(scheduler.view(), *group, force, now),
{
    if force {
        return true;
    }
    if !group.check_enabled {
        return false;
    }
    match scheduler.last_check_of(group.id.as_str()) {
        Some(last) => {
            let elapsed = if now >= last {
                (now - last) / 1_000_000_000
            } else {
                0
            };
            let interval = if group.check_interval_seconds == 0 {
                1
            } else {
                group.check_interval_seconds
            };
            elapsed >= interval
        },
        None => true,
    }
}

/// After a group is checked, it is not due again (unless forced) until its
/// interval has passed, and it is due as soon as it has.
pub proof fn lemma_recorded_check_waits_for_interval(
    m: Map<Seq<char>, u64>,
    g: InterfaceGroupConfig,
    checked_at: u64,
    now: u64,
)
    ensures
        spec_should_check(m.insert(g.id@, checked_at), g, false, now) == (g.check_enabled
            && elapsed_secs(checked_at, now) >= interval_limit(g)),
{
}

// ---------------------------------------------------------------------------
// Probing one interface
// ---------------------------------------------------------------------------

/// How one interface is probed: through which device, with which timeout in
/// seconds (as passed to the probe).
pub struct InterfaceProbe {
    pub device: String,
    pub timeout: String,
}

/// The probe timeout of a group: its check timeout, at least one second.
pub open spec fn probe_timeout(g: InterfaceGroupConfig) -> nat {
    if g.check_timeout_seconds == 0 {
        1
    } else {
        g.check_timeout_seconds as nat
    }
}

/// How to probe `interface` of `group`: through the device of the network
/// interface it designates (its own name when that has no device), or the
/// message for an interface that is not found.
pub fn interface_probe(group: &InterfaceGroupConfig, interface: &str, interfaces: &Vec<NetworkInterface>) -> (r: Result<
    InterfaceProbe,
    String,
>)
    ensures
        match spec_find_interface(interface_views(interfaces@), interface@) {
            None => r matches Err(m) && m@ == "interface '"@ + interface@ + "' was not found"@,
            Some(k) => r matches Ok(p) && p.device@ == (match spec_device_name(interface_views(interfaces@)[k]) {
                Some(d) => d,
                None => interface@,
            }) && p.timeout@ == dec(probe_timeout(*group)),
        },
{
    let target = match find_interface(interfaces, interface) {
        None => {
            let mut m = owned("interface '");
            push_str(&mut m, interface);
            push_str(&mut m, "' was not found");
            return Err(m);
        },
        Some(t) => t,
    };
    let device = match target.device_name() {
        Some(d) => d,
        None => owned(interface),
    };
    let seconds = if group.check_timeout_seconds == 0 {
        1
    } else {
        group.check_timeout_seconds
    };
    let mut timeout = String::new();
    push_decimal(&mut timeout, seconds);
    assert(timeout@ == dec(probe_timeout(*group)));
    Ok(InterfaceProbe { device, timeout })
}

/// The message for a failed probe of `interface`, with what the probe wrote
/// to stderr, trimmed, when that is not blank.
pub open spec fn probe_failure_text(interface: Seq<char>, stderr: Seq<char>) -> Seq<char> {
    if trim(stderr).len() == 0 {
        "health check failed for "@ + interface
    } else {
        "health check failed for "@ + interface + ": "@ + trim(stderr)
    }
}

/// The message for a failed probe.
pub fn probe_failure_message(interface: &str, stderr: &str) -> (r: String)
    ensures
        r@ == probe_failure_text(interface@, stderr@),
{
    let e = trim_string(stderr);
    let mut m = owned("health check failed for ");
    push_str(&mut m, interface);
    if !e.as_str().is_empty() {
        push_str(&mut m, ": ");
        push_str(&mut m, e.as_str());
    }
    m
}

} // verus!
