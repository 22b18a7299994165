use soya_asn_router::config::{AsnConfig, Config, InterfaceGroupConfig};
use soya_asn_router::health::InterfaceHealthRow;
use soya_asn_router::policy::NetworkInterface;
use soya_asn_router::status::{
    asn_status, interface_choices, interface_group_status, interface_health_status,
    policy_status, status_response, sync_status, AsnStatusRow, GroupStateRow, PolicyStateRow,
    SyncLockRow,
};

#[test]
fn reports_sync_lock() {
    let idle = sync_status(None);
    assert!(!idle.running);
    assert_eq!(idle.mode, None);
    assert_eq!((idle.total, idle.completed, idle.failed), (0, 0, 0));
    let running = sync_status(Some(SyncLockRow {
        mode: "all".to_string(),
        locked_at: 1700000000,
        current_asn: Some("AS1".to_string()),
        total: 5,
        completed: 2,
        failed: 1,
    }));
    assert!(running.running);
    assert_eq!(running.mode, Some("all".to_string()));
    assert_eq!(running.locked_at, Some(1700000000));
    assert_eq!(running.current_asn, Some("AS1".to_string()));
    assert_eq!((running.total, running.completed, running.failed), (5, 2, 1));
}

#[test]
fn reports_policy_state() {
    let enabled = policy_status(true, None);
    assert_eq!(enabled.state, "not_applied");
    assert_eq!(enabled.nft_path, "/etc/soya-asn-router/routes.nft");
    assert_eq!(enabled.script_path, "/etc/soya-asn-router/routes.sh");
    assert_eq!(policy_status(false, None).state, "paused");
    let applied = policy_status(
        true,
        Some(PolicyStateRow {
            state: "applied".to_string(),
            updated_at: Some("t".to_string()),
            interface_count: 2,
            ipv4_prefix_count: 40,
            last_error: None,
        }),
    );
    assert_eq!(applied.state, "applied");
    assert_eq!((applied.interface_count, applied.ipv4_prefix_count), (2, 40));
}

#[test]
fn reports_asn_state() {
    let config = AsnConfig { asn: "AS1".into(), target_interface: "wan".into(), enabled: true };
    let unknown = asn_status(&config, None);
    assert_eq!(unknown.state, "not_synced");
    assert_eq!(unknown.asn, "AS1");
    assert_eq!(unknown.target_interface, "wan");
    let synced = asn_status(
        &config,
        Some(AsnStatusRow {
            state: "synced".into(),
            ipv4_count: 10,
            ipv6_count: 3,
            last_synced_at: Some("t".into()),
            sync_started_at: None,
            last_error: None,
            provider_name: Some("Example".into()),
        }),
    );
    assert_eq!(synced.state, "synced");
    assert_eq!((synced.ipv4_count, synced.ipv6_count), (10, 3));
    assert_eq!(synced.provider_name, Some("Example".to_string()));
}

fn group() -> InterfaceGroupConfig {
    InterfaceGroupConfig {
        id: "vpn".to_string(),
        name: "VPN".to_string(),
        enabled: true,
        interfaces: vec!["wg0".to_string(), "tun0".to_string()],
        check_enabled: true,
        check_url: "https://www.google.com/generate_204".to_string(),
        check_interval_seconds: 60,
        check_timeout_seconds: 5,
        failure_threshold: 3,
        recovery_threshold: 3,
        prefer_primary: true,
    }
}

#[test]
fn reports_group_state() {
    let health = vec![Some(InterfaceHealthRow {
        interface: "wg0".to_string(),
        state: "healthy".to_string(),
        consecutive_successes: 4,
        consecutive_failures: 0,
        last_checked_at: Some("t".to_string()),
        last_ok_at: Some("t".to_string()),
        last_error: None,
        latency_ms: Some(20),
    })];
    let status = interface_group_status(&group(), None, health);
    assert_eq!(status.primary_interface, Some("wg0".to_string()));
    assert_eq!(status.active_interface, Some("wg0".to_string()));
    assert_eq!(status.state, "unknown");
    assert_eq!(status.interfaces.len(), 2);
    assert_eq!(status.interfaces[0].consecutive_successes, 4);
    assert_eq!(status.interfaces[1].name, "tun0");
    assert_eq!(status.interfaces[1].state, "unknown");

    let recorded = interface_group_status(
        &group(),
        Some(GroupStateRow {
            active_interface: Some("tun0".to_string()),
            state: "degraded".to_string(),
            switched_at: Some("t".to_string()),
            last_checked_at: None,
            last_error: Some("boom".to_string()),
        }),
        vec![None, None],
    );
    assert_eq!(recorded.active_interface, Some("tun0".to_string()));
    assert_eq!(recorded.state, "degraded");
    assert_eq!(recorded.last_error, Some("boom".to_string()));
    let unknown = interface_health_status(&"ppp0".to_string(), None);
    assert_eq!(unknown.name, "ppp0");
    assert_eq!(unknown.latency_ms, None);
}

#[test]
fn lists_interface_choices() {
    let list = interface_choices(vec![
        NetworkInterface {
            interface: "wan".to_string(),
            up: true,
            device: Some(" eth0 ".to_string()),
            l3_device: None,
            route: vec![],
        },
        NetworkInterface {
            interface: "wg0".to_string(),
            up: false,
            device: None,
            l3_device: None,
            route: vec![],
        },
    ]);
    assert_eq!(list.interfaces.len(), 2);
    assert_eq!(list.interfaces[0].device, Some("eth0".to_string()));
    assert!(list.interfaces[0].up);
    assert_eq!(list.interfaces[1].name, "wg0");
    assert_eq!(list.interfaces[1].device, None);
}

#[test]
fn assembles_the_status_report() {
    let config = Config {
        enabled: true,
        asns: vec![],
        custom_routes: vec![],
        interface_groups: vec![],
        lan_interface: "lan".into(),
        default_target_interface: "wan".into(),
        auto_apply_routes: true,
        periodic_sync_enabled: true,
        periodic_sync_mode: "missing".into(),
        periodic_sync_interval_minutes: 60,
        route_policy_enabled: true,
        proxy_enabled: true,
        proxy_type: "socks5".into(),
        proxy_url: Some("127.0.0.1:1080".into()),
        db_path: "/tmp/soya.db".into(),
    };
    let report = status_response(&config, sync_status(None), policy_status(true, None), vec![], vec![]);
    assert!(report.enabled);
    assert_eq!(report.db_path, "/tmp/soya.db");
    assert_eq!(report.periodic_sync.mode, "missing");
    assert_eq!(report.periodic_sync.interval_minutes, 60);
    assert_eq!(report.proxy.url, Some("127.0.0.1:1080".to_string()));
    assert_eq!(report.policy.state, "not_applied");
}
