//! The status report: the configuration as the router reads it, with the
//! state of syncing, of the route policy, of each ASN and of each interface
//! group, assembled from the records of the state store.
use vstd::prelude::*;

use crate::config::{AsnConfig, Config, InterfaceGroupConfig};
use crate::constants::{ROUTES_NFT_PATH, ROUTES_SH_PATH};
use crate::health::InterfaceHealthRow;
use crate::policy::{spec_device_name, NetworkInterface};
use crate::text::owned;

verus! {

/// The periodic sync settings.
pub struct PeriodicSyncStatus {
    pub enabled: bool,
    pub mode: String,
    pub interval_minutes: u64,
}

/// The proxy settings.
pub struct ProxyStatus {
    pub enabled: bool,
    pub proxy_type: String,
    pub url: Option<String>,
}

/// Whether a sync is running, and how far it got.
pub struct SyncStatus {
    pub running: bool,
    pub mode: Option<String>,
    pub locked_at: Option<i64>,
    pub current_asn: Option<String>,
    pub total: i64,
    pub completed: i64,
    pub failed: i64,
}

/// The state of the route policy.
pub struct PolicyStatus {
    pub enabled: bool,
    pub state: String,
    pub updated_at: Option<String>,
    pub interface_count: i64,
    pub ipv4_prefix_count: i64,
    pub last_error: Option<String>,
    pub nft_path: String,
    pub script_path: String,
}

/// The state of one configured ASN.
pub struct AsnStatus {
    pub asn: String,
    pub provider_name: Option<String>,
    pub enabled: bool,
    pub target_interface: String,
    pub state: String,
    pub ipv4_count: i64,
    pub ipv6_count: i64,
    pub last_synced_at: Option<String>,
    pub sync_started_at: Option<String>,
    pub last_error: Option<String>,
}

/// The state of one interface group.
pub struct InterfaceGroupStatus {
    pub id: String,
    pub name: String,
    pub enabled: bool,
    pub check_enabled: bool,
    pub check_url: String,
    pub check_interval_seconds: u64,
    pub check_timeout_seconds: u64,
    pub failure_threshold: u32,
    pub recovery_threshold: u32,
    pub prefer_primary: bool,
    pub primary_interface: Option<String>,
    pub active_interface: Option<String>,
    pub state: String,
    pub switched_at: Option<String>,
    pub last_checked_at: Option<String>,
    pub last_error: Option<String>,
    pub interfaces: Vec<InterfaceHealthStatus>,
}

/// The health of one member of an interface group.
pub struct InterfaceHealthStatus {
    pub name: String,
    pub state: String,
    pub consecutive_successes: i64,
    pub consecutive_failures: i64,
    pub last_checked_at: Option<String>,
    pub last_ok_at: Option<String>,
    pub last_error: Option<String>,
    pub latency_ms: Option<i64>,
}

/// The whole status report.
pub struct StatusResponse {
    pub enabled: bool,
    pub db_path: String,
    pub lan_interface: String,
    pub default_target_interface: String,
    pub periodic_sync: PeriodicSyncStatus,
    pub proxy: ProxyStatus,
    pub sync: SyncStatus,
    pub policy: PolicyStatus,
    pub interface_groups: Vec<InterfaceGroupStatus>,
    pub asns: Vec<AsnStatus>,
}

/// An interface that ASNs can be routed through.
pub struct InterfaceChoice {
    pub name: String,
    pub device: Option<String>,
    pub up: bool,
}

/// The interfaces that ASNs can be routed through.
pub struct InterfaceListResponse {
    pub interfaces: Vec<InterfaceChoice>,
}

// ---------------------------------------------------------------------------
// Records of the state store
// ---------------------------------------------------------------------------

/// The sync lock, while a sync runs.
pub struct SyncLockRow {
    pub mode: String,
    pub locked_at: i64,
    pub current_asn: Option<String>,
    pub total: i64,
    pub completed: i64,
    pub failed: i64,
}

/// The recorded state of the route policy.
pub struct PolicyStateRow {
    pub state: String,
    pub updated_at: Option<String>,
    pub interface_count: i64,
    pub ipv4_prefix_count: i64,
    pub last_error: Option<String>,
}

/// The recorded state of an ASN.
pub struct AsnStatusRow {
    pub state: String,
    pub ipv4_count: i64,
    pub ipv6_count: i64,
    pub last_synced_at: Option<String>,
    pub sync_started_at: Option<String>,
    pub last_error: Option<String>,
    pub provider_name: Option<String>,
}

/// The recorded state of an interface group.
pub struct GroupStateRow {
    pub active_interface: Option<String>,
    pub state: String,
    pub switched_at: Option<String>,
    pub last_checked_at: Option<String>,
    pub last_error: Option<String>,
}

fn clone_opt(o: &Option<String>) -> (r: Option<String>)
    ensures
        r == *o,
{
    match o {
        Some(s) => Some(s.clone()),
        None => None,
    }
}

/// The sync status from the sync lock: running while the lock is held.
pub fn sync_status(lock: Option<SyncLockRow>) -> (r: SyncStatus)
    ensures
        match lock {
            Some(l) => r == (SyncStatus {
                running: true,
                mode: Some(l.mode),
                locked_at: Some(l.locked_at),
                current_asn: l.current_asn,
                total: l.total,
                completed: l.completed,
                failed: l.failed,
            }),
            None => r == (SyncStatus {
                running: false,
                mode: None,
                locked_at: None,
                current_asn: None,
                total: 0,
                completed: 0,
                failed: 0,
            }),
        },
{
    match lock {
        Some(l) => SyncStatus {
            running: true,
            mode: Some(l.mode),
            locked_at: Some(l.locked_at),
            current_asn: l.current_asn,
            total: l.total,
            completed: l.completed,
            failed: l.failed,
        },
        None => SyncStatus {
            running: false,
            mode: None,
            locked_at: None,
            current_asn: None,
            total: 0,
            completed: 0,
            failed: 0,
        },
    }
}

/// The route policy status from its record; without one, `not_applied`
/// when the policy is enabled and `paused` when it is not.
pub fn policy_status(enabled: bool, row: Option<PolicyStateRow>) -> (r: PolicyStatus)
    ensures
        r.enabled == enabled,
        r.nft_path@ == ROUTES_NFT_PATH@,
        r.script_path@ == ROUTES_SH_PATH@,
        match row {
            Some(p) => r.state == p.state && r.updated_at == p.updated_at && r.interface_count == p.interface_count
                && r.ipv4_prefix_count == p.ipv4_prefix_count && r.last_error == p.last_error,
            None => r.state@ == (if enabled {
                "not_applied"@
            } else {
                "paused"@
            }) && r.updated_at is None && r.interface_count == 0 && r.ipv4_prefix_count == 0
                && r.last_error is None,
        },
{
    match row {
        Some(p) => PolicyStatus {
            enabled,
            state: p.state,
            updated_at: p.updated_at,
            interface_count: p.interface_count,
            ipv4_prefix_count: p.ipv4_prefix_count,
            last_error: p.last_error,
            nft_path: owned(ROUTES_NFT_PATH),
            script_path: owned(ROUTES_SH_PATH),
        },
        None => PolicyStatus {
            enabled,
            state: if enabled {
                owned("not_applied")
            } else {
                owned("paused")
            },
            updated_at: None,
            interface_count: 0,
            ipv4_prefix_count: 0,
            last_error: None,
            nft_path: owned(ROUTES_NFT_PATH),
            script_path: owned(ROUTES_SH_PATH),
        },
    }
}

/// The status of a configured ASN from its record; without one, not synced.
pub fn asn_status(config: &AsnConfig, row: Option<AsnStatusRow>) -> (r: AsnStatus)
    ensures
        r.asn == config.asn,
        r.enabled == config.enabled,
        r.target_interface == config.target_interface,
        match row {
            Some(a) => r.provider_name == a.provider_name && r.state == a.state && r.ipv4_count == a.ipv4_count
                && r.ipv6_count == a.ipv6_count && r.last_synced_at == a.last_synced_at && r.sync_started_at
                == a.sync_started_at && r.last_error == a.last_error,
            None => r.provider_name is None && r.state@ == "not_synced"@ && r.ipv4_count == 0 && r.ipv6_count == 0
                && r.last_synced_at is None && r.sync_started_at is None && r.last_error is None,
        },
{
    match row {
        Some(a) => AsnStatus {
            asn: config.asn.clone(),
            provider_name: a.provider_name,
            enabled: config.enabled,
            target_interface: config.target_interface.clone(),
            state: a.state,
            ipv4_count: a.ipv4_count,
            ipv6_count: a.ipv6_count,
            last_synced_at: a.last_synced_at,
            sync_started_at: a.sync_started_at,
            last_error: a.last_error,
        },
        None => AsnStatus {
            asn: config.asn.clone(),
            provider_name: None,
            enabled: config.enabled,
            target_interface: config.target_interface.clone(),
            state: owned("not_synced"),
            ipv4_count: 0,
            ipv6_count: 0,
            last_synced_at: None,
            sync_started_at: None,
            last_error: None,
        },
    }
}

/// The health of a member named `name` as recorded in `row`; without a
/// record, unknown.
pub open spec fn health_matches(r: InterfaceHealthStatus, name: String, row: Option<InterfaceHealthRow>) -> bool {
    match row {
        Some(h) => r == (InterfaceHealthStatus {
            name: h.interface,
            state: h.state,
            consecutive_successes: h.consecutive_successes,
            consecutive_failures: h.consecutive_failures,
            last_checked_at: h.last_checked_at,
            last_ok_at: h.last_ok_at,
            last_error: h.last_error,
            latency_ms: h.latency_ms,
        }),
        None => r.name == name && r.state@ == "unknown"@ && r.consecutive_successes == 0
            && r.consecutive_failures == 0 && r.last_checked_at is None && r.last_ok_at is None
            && r.last_error is None && r.latency_ms is None,
    }
}

/// The health of a group member from its record; without one, unknown.
pub fn interface_health_status(name: &String, row: Option<InterfaceHealthRow>) -> (r: InterfaceHealthStatus)
    ensures
        health_matches(r, *name, row),
{
    match row {
        Some(h) => InterfaceHealthStatus {
            name: h.interface,
            state: h.state,
            consecutive_successes: h.consecutive_successes,
            consecutive_failures: h.consecutive_failures,
            last_checked_at: h.last_checked_at,
            last_ok_at: h.last_ok_at,
            last_error: h.last_error,
            latency_ms: h.latency_ms,
        },
        None => InterfaceHealthStatus {
            name: name.clone(),
            state: owned("unknown"),
            consecutive_successes: 0,
            consecutive_failures: 0,
            last_checked_at: None,
            last_ok_at: None,
            last_error: None,
            latency_ms: None,
        },
    }
}

/// The status of an interface group from its record (without one: the
/// primary interface as active, state `unknown`) and the health records of
/// its members, in order (a missing record counts as unknown).
pub fn interface_group_status(
    group: &InterfaceGroupConfig,
    state: Option<GroupStateRow>,
    health: Vec<Option<InterfaceHealthRow>>,
) -> (r: InterfaceGroupStatus)
    ensures
        r.id == group.id,
        r.name == group.name,
        r.enabled == group.enabled,
        r.check_enabled == group.check_enabled,
        r.check_url == group.check_url,
        r.check_interval_seconds == group.check_interval_seconds,
        r.check_timeout_seconds == group.check_timeout_seconds,
        r.failure_threshold == group.failure_threshold,
        r.recovery_threshold == group.recovery_threshold,
        r.prefer_primary == group.prefer_primary,
        crate::config::opt_text(r.primary_interface) == (if group.interfaces.len() > 0 {
            Some(group.members()[0])
        } else {
            None::<Seq<char>>
        }),
        match state {
            Some(s) => r.active_interface == s.active_interface && r.state == s.state && r.switched_at
                == s.switched_at && r.last_checked_at == s.last_checked_at && r.last_error == s.last_error,
            None => r.active_interface == r.primary_interface && r.state@ == "unknown"@ && r.switched_at is None
                && r.last_checked_at is None && r.last_error is None,
        },
        r.interfaces.len() == group.interfaces.len(),
        forall|i: int|
            0 <= i < group.interfaces.len() ==> health_matches(
                #[trigger] r.interfaces@[i],
                group.interfaces@[i],
                if i < health.len() {
                    health@[i]
                } else {
                    None
                },
            ),
{
    let primary = match group.primary_interface() {
        Some(p) => Some(owned(p)),
        None => None,
    };
    let mut interfaces: Vec<InterfaceHealthStatus> = Vec::new();
    let mut rest = health;
    let ghost hv = rest@;
    let mut i: usize = 0;
    while i < group.interfaces.len()
        invariant
            i <= group.interfaces.len(),
            interfaces.len() == i,
            rest@ == (if i < hv.len() {
                hv.subrange(i as int, hv.len() as int)
            } else {
                Seq::empty()
            }),
            forall|k: int|
                0 <= k < i ==> health_matches(
                    #[trigger] interfaces@[k],
                    group.interfaces@[k],
                    if k < hv.len() {
                        hv[k]
                    } else {
                        None
                    },
                ),
        decreases group.interfaces.len() - i,
    {
        let row = if rest.len() > 0 {
            rest.remove(0)
        } else {
            None
        };
        let s = interface_health_status(&group.interfaces[i], row);
        interfaces.push(s);
        i += 1;
    }
    let (active_interface, st, switched_at, last_checked_at, last_error) = match state {
        Some(s) => (s.active_interface, s.state, s.switched_at, s.last_checked_at, s.last_error),
        None => (clone_opt(&primary), owned("unknown"), None, None, None),
    };
    InterfaceGroupStatus {
        id: group.id.clone(),
        name: group.name.clone(),
        enabled: group.enabled,
        check_enabled: group.check_enabled,
        check_url: group.check_url.clone(),
        check_interval_seconds: group.check_interval_seconds,
        check_timeout_seconds: group.check_timeout_seconds,
        failure_threshold: group.failure_threshold,
        recovery_threshold: group.recovery_threshold,
        prefer_primary: group.prefer_primary,
        primary_interface: primary,
        active_interface,
        state: st,
        switched_at,
        last_checked_at,
        last_error,
        interfaces,
    }
}

/// The interfaces that ASNs can be routed through, with their devices.
pub fn interface_choices(interfaces: Vec<NetworkInterface>) -> (r: InterfaceListResponse)
    ensures
        r.interfaces.len() == interfaces.len(),
        forall|i: int|
            0 <= i < interfaces.len() ==> (#[trigger] r.interfaces@[i]).name == interfaces@[i].interface
                && r.interfaces@[i].up == interfaces@[i].up && crate::config::opt_text(r.interfaces@[i].device)
                == spec_device_name(interfaces@[i]@),
{
    let mut out: Vec<InterfaceChoice> = Vec::new();
    let mut rest = interfaces;
    let ghost all = rest@;
    while rest.len() > 0
        invariant
            out.len() + rest.len() == all.len(),
            forall|k: int| 0 <= k < rest.len() ==> #[trigger] rest@[k] == all[out.len() + k],
            forall|k: int|
                0 <= k < out.len() ==> (#[trigger] out@[k]).name == all[k].interface && out@[k].up == all[k].up
                    && crate::config::opt_text(out@[k].device) == spec_device_name(all[k]@),
        decreases rest.len(),
    {
        let ghost before = rest@;
        let iface = rest.remove(0);
        assert(iface == all[out.len() as int]);
        assert forall|k: int| 0 <= k < rest.len() implies #[trigger] rest@[k] == all[out.len() + 1 + k] by {
            assert(rest@[k] == before[k + 1]);
        }
        let device = iface.device_name();
        out.push(InterfaceChoice { device, name: iface.interface, up: iface.up });
    }
    InterfaceListResponse { interfaces: out }
}

/// The status report from the configuration and the states read.
pub fn status_response(
    config: &Config,
    sync: SyncStatus,
    policy: PolicyStatus,
    interface_groups: Vec<InterfaceGroupStatus>,
    asns: Vec<AsnStatus>,
) -> (r: StatusResponse)
    ensures
        r.enabled == config.enabled,
        r.db_path == config.db_path,
        r.lan_interface == config.lan_interface,
        r.default_target_interface == config.default_target_interface,
        r.periodic_sync == (PeriodicSyncStatus {
            enabled: config.periodic_sync_enabled,
            mode: config.periodic_sync_mode,
            interval_minutes: config.periodic_sync_interval_minutes,
        }),
        r.proxy == (ProxyStatus {
            enabled: config.proxy_enabled,
            proxy_type: config.proxy_type,
            url: config.proxy_url,
        }),
        r.sync == sync,
        r.policy == policy,
        r.interface_groups == interface_groups,
        r.asns == asns,
{
    StatusResponse {
        enabled: config.enabled,
        db_path: config.db_path.clone(),
        lan_interface: config.lan_interface.clone(),
        default_target_interface: config.default_target_interface.clone(),
        periodic_sync: PeriodicSyncStatus {
            enabled: config.periodic_sync_enabled,
            mode: config.periodic_sync_mode.clone(),
            interval_minutes: config.periodic_sync_interval_minutes,
        },
        proxy: ProxyStatus {
            enabled: config.proxy_enabled,
            proxy_type: config.proxy_type.clone(),
            url: clone_opt(&config.proxy_url),
        },
        sync,
        policy,
        interface_groups,
        asns,
    }
}

} // verus!
