use soya_asn_router::config::InterfaceGroupConfig;
use soya_asn_router::health::{
    choose_active_interface, conclude_group_check, group_probe_needed, group_state,
    has_failures, interface_probe, is_candidate_healthy, is_recovered, is_unhealthy,
    next_health_row, probe_failure_message, should_check_group, stored_active_interface,
    HealthCheckScheduler, InterfaceHealthRow,
};
use soya_asn_router::policy::NetworkInterface;

fn group(interfaces: &[&str], prefer_primary: bool) -> InterfaceGroupConfig {
    InterfaceGroupConfig {
        id: "vpn".to_string(),
        name: "VPN".to_string(),
        enabled: true,
        interfaces: interfaces.iter().map(|s| s.to_string()).collect(),
        check_enabled: true,
        check_url: "https://www.google.com/generate_204".to_string(),
        check_interval_seconds: 60,
        check_timeout_seconds: 5,
        failure_threshold: 3,
        recovery_threshold: 2,
        prefer_primary,
    }
}

fn row(name: &str, successes: i64, failures: i64) -> InterfaceHealthRow {
    InterfaceHealthRow {
        interface: name.to_string(),
        state: if failures > 0 { "unhealthy" } else { "healthy" }.to_string(),
        consecutive_successes: successes,
        consecutive_failures: failures,
        last_checked_at: None,
        last_ok_at: None,
        last_error: None,
        latency_ms: None,
    }
}

#[test]
fn judges_interface_health() {
    let g = group(&["wg0", "tun0"], true);
    let rows = vec![row("wg0", 0, 3), row("tun0", 2, 0)];
    assert!(is_unhealthy(&g, "wg0", &rows));
    assert!(!is_unhealthy(&g, "tun0", &rows));
    assert!(!is_unhealthy(&g, "eth9", &rows));
    assert!(is_recovered(&g, "tun0", &rows));
    assert!(!is_recovered(&g, "wg0", &rows));
    assert!(is_candidate_healthy(&g, "tun0", &rows));
    assert!(!is_candidate_healthy(&g, "wg0", &rows));
    assert!(has_failures("wg0", &rows));
    assert!(!has_failures("tun0", &rows));
}

#[test]
fn fails_over_to_first_healthy_member() {
    let g = group(&["wg0", "tun0", "ppp0"], true);
    let rows = vec![row("wg0", 0, 3), row("tun0", 0, 1), row("ppp0", 1, 0)];
    assert_eq!(choose_active_interface(&g, Some("wg0"), &rows), Some("ppp0".to_string()));
}

#[test]
fn keeps_previous_below_threshold() {
    let g = group(&["wg0", "tun0"], true);
    let rows = vec![row("wg0", 0, 2), row("tun0", 5, 0)];
    assert_eq!(choose_active_interface(&g, Some("wg0"), &rows), Some("wg0".to_string()));
}

#[test]
fn returns_to_recovered_primary() {
    let g = group(&["wg0", "tun0"], true);
    let rows = vec![row("wg0", 2, 0), row("tun0", 5, 0)];
    assert_eq!(choose_active_interface(&g, Some("tun0"), &rows), Some("wg0".to_string()));
    let g = group(&["wg0", "tun0"], false);
    assert_eq!(choose_active_interface(&g, Some("tun0"), &rows), Some("tun0".to_string()));
}

#[test]
fn keeps_previous_when_all_are_unhealthy() {
    let g = group(&["wg0", "tun0"], true);
    let rows = vec![row("wg0", 0, 3), row("tun0", 0, 3)];
    assert_eq!(choose_active_interface(&g, Some("tun0"), &rows), Some("tun0".to_string()));
    assert_eq!(choose_active_interface(&g, Some("eth9"), &rows), Some("wg0".to_string()));
    let empty = group(&[], true);
    assert_eq!(choose_active_interface(&empty, Some("wg0"), &rows), None);
}

#[test]
fn states_group_health() {
    let g = group(&["wg0", "tun0"], true);
    let rows = vec![row("wg0", 0, 3), row("tun0", 2, 0)];
    assert_eq!(group_state(&g, None, &rows), "error");
    assert_eq!(group_state(&g, Some("wg0"), &rows), "error");
    assert_eq!(group_state(&g, Some("tun0"), &rows), "degraded");
    let rows = vec![row("wg0", 4, 0)];
    assert_eq!(group_state(&g, Some("wg0"), &rows), "healthy");
    let rows = vec![row("wg0", 0, 1)];
    assert_eq!(group_state(&g, Some("wg0"), &rows), "degraded");
}

#[test]
fn concludes_a_round_of_checks() {
    let g = group(&["wg0", "tun0"], true);
    let rows = vec![row("wg0", 0, 3), row("tun0", 1, 0)];
    let out = conclude_group_check(&g, Some("wg0"), &rows, Some("health check failed for wg0"));
    assert_eq!(out.active, Some("tun0".to_string()));
    assert!(out.changed);
    assert_eq!(out.state, "degraded");
    assert_eq!(out.error, Some("health check failed for wg0".to_string()));

    let rows = vec![row("wg0", 0, 3), row("tun0", 0, 3)];
    let out = conclude_group_check(&g, Some("wg0"), &rows, Some("x"));
    assert_eq!(out.active, Some("wg0".to_string()));
    assert!(!out.changed);
    assert_eq!(out.state, "error");
    assert_eq!(out.error, Some("all group interfaces are unhealthy".to_string()));

    let rows = vec![row("wg0", 3, 0), row("tun0", 3, 0)];
    let out = conclude_group_check(&g, Some("wg0"), &rows, None);
    assert_eq!(out.state, "healthy");
    assert_eq!(out.error, None);
}

#[test]
fn counts_consecutive_results() {
    let previous = InterfaceHealthRow {
        last_ok_at: Some("t0".to_string()),
        ..row("wg0", 2, 0)
    };
    let failed = next_health_row(Some(&previous), "wg0", false, None, Some("boom"), "t1");
    assert_eq!(failed.state, "unhealthy");
    assert_eq!((failed.consecutive_successes, failed.consecutive_failures), (0, 1));
    assert_eq!(failed.last_ok_at, Some("t0".to_string()));
    assert_eq!(failed.last_checked_at, Some("t1".to_string()));
    assert_eq!(failed.last_error, Some("boom".to_string()));
    let again = next_health_row(Some(&failed), "wg0", false, None, Some("boom"), "t2");
    assert_eq!(again.consecutive_failures, 2);
    let ok = next_health_row(Some(&again), "wg0", true, Some(12), None, "t3");
    assert_eq!(ok.state, "healthy");
    assert_eq!((ok.consecutive_successes, ok.consecutive_failures), (1, 0));
    assert_eq!(ok.last_ok_at, Some("t3".to_string()));
    assert_eq!(ok.latency_ms, Some(12));
    let first = next_health_row(None, "tun0", true, Some(3), None, "t4");
    assert_eq!(first.consecutive_successes, 1);
}

#[test]
fn reads_the_recorded_active_member() {
    let g = group(&["wg0", "tun0"], true);
    assert_eq!(stored_active_interface(&g, Some("tun0")), Some("tun0".to_string()));
    assert_eq!(stored_active_interface(&g, Some("eth9")), Some("wg0".to_string()));
    assert_eq!(stored_active_interface(&g, None), Some("wg0".to_string()));
    assert_eq!(stored_active_interface(&group(&[], true), Some("wg0")), None);
}

#[test]
fn schedules_checks_by_interval() {
    let mut g = group(&["wg0"], true);
    let mut scheduler = HealthCheckScheduler::new();
    assert!(should_check_group(&scheduler, &g, false, 0));
    scheduler.record_check("vpn", 1_000_000_000);
    assert!(!should_check_group(&scheduler, &g, false, 30_000_000_000));
    assert!(should_check_group(&scheduler, &g, true, 30_000_000_000));
    assert!(should_check_group(&scheduler, &g, false, 61_000_000_000));
    g.check_interval_seconds = 0;
    assert!(should_check_group(&scheduler, &g, false, 2_000_000_000));
    assert!(!should_check_group(&scheduler, &g, false, 1_500_000_000));
    g.check_enabled = false;
    assert!(!should_check_group(&scheduler, &g, false, 100_000_000_000));
    assert!(!group_probe_needed(&g));
    assert!(group_probe_needed(&group(&["wg0"], true)));
    assert!(!group_probe_needed(&group(&[], true)));
    let default_scheduler = HealthCheckScheduler::default();
    assert!(should_check_group(&default_scheduler, &group(&["wg0"], true), false, 0));
}

#[test]
fn plans_interface_probes() {
    let interfaces = vec![NetworkInterface {
        interface: "vpn1".to_string(),
        up: true,
        device: None,
        l3_device: Some("wg0".to_string()),
        route: vec![],
    }];
    let mut g = group(&["vpn1"], true);
    let probe = interface_probe(&g, "vpn1", &interfaces).ok().unwrap();
    assert_eq!(probe.device, "wg0");
    assert_eq!(probe.timeout, "5");
    g.check_timeout_seconds = 0;
    let probe = interface_probe(&g, "wg0", &interfaces).ok().unwrap();
    assert_eq!(probe.device, "wg0");
    assert_eq!(probe.timeout, "1");
    assert_eq!(
        interface_probe(&g, "ppp0", &interfaces).err(),
        Some("interface 'ppp0' was not found".to_string())
    );
    assert_eq!(probe_failure_message("wg0", " \n"), "health check failed for wg0");
    assert_eq!(
        probe_failure_message("wg0", "curl: (7) refused\n"),
        "health check failed for wg0: curl: (7) refused"
    );
}
