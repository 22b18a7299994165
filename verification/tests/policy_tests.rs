use soya_asn_router::config::{AsnConfig, Config, CustomRouteConfig, InterfaceGroupConfig};
use soya_asn_router::policy::{
    build_policy_plan, count_prefixes, find_interface, plan_stats, preview_from_plan,
    resolve_target_interface, sanitize_nft_ident, sort_interfaces_by_name, NetworkInterface,
    NetworkRoute, PolicyError, PolicyGroup,
};
use soya_asn_router::render::{
    nft_quote, render_nft_policy, render_route_cleanup_script, render_route_script,
    route_script_error, shell_quote,
};

fn policy_group(
    interface: &str,
    mark: u32,
    asn_prefixes: &[&str],
    custom_prefixes: &[&str],
) -> PolicyGroup {
    PolicyGroup {
        interface: interface.to_string(),
        device: interface.to_string(),
        table_id: 1000,
        mark,
        pref: 30000,
        asn_set_name: format!("to_{interface}_v4"),
        custom_set_name: format!("custom_to_{interface}_v4"),
        asn_count: asn_prefixes.len(),
        custom_route_count: custom_prefixes.len(),
        asn_prefixes: asn_prefixes
            .iter()
            .map(|prefix| (*prefix).to_string())
            .collect(),
        custom_prefixes: custom_prefixes
            .iter()
            .map(|prefix| (*prefix).to_string())
            .collect(),
        default_route: None,
    }
}

#[test]
fn custom_prefix_rules_are_rendered_after_asn_rules() {
    let groups = [
        policy_group("wan", 0x1200, &["8.8.8.0/24"], &[]),
        policy_group("wg0", 0x1201, &[], &["8.8.8.8/32"]),
    ];
    let nft = render_nft_policy("br-lan", &groups);

    assert!(nft.contains("set to_wan_v4"));
    assert!(nft.contains("set custom_to_wg0_v4"));
    assert!(!nft.contains("@custom_to_wan_v4"));
    assert!(!nft.contains("@to_wg0_v4"));

    let asn_rule = nft.find("@to_wan_v4").expect("missing ASN rule");
    let custom_rule = nft.find("@custom_to_wg0_v4").expect("missing custom rule");
    assert!(asn_rule < custom_rule);
}

#[test]
fn renders_the_whole_ruleset() {
    let groups = [policy_group("wan", 0x1200, &["8.8.8.0/24", "9.9.9.0/24"], &[])];
    let nft = render_nft_policy("br-lan", &groups);
    assert_eq!(
        nft,
        "table inet soya_asn_router {\n  set to_wan_v4 {\n    type ipv4_addr\n    flags interval\n    auto-merge\n    elements = {\n      8.8.8.0/24,\n      9.9.9.0/24\n    }\n  }\n\n  chain prerouting {\n    type filter hook prerouting priority mangle; policy accept;\n    iifname \"br-lan\" ip daddr @to_wan_v4 meta mark set 0x1200\n  }\n}\n"
    );
}

#[test]
fn renders_an_empty_ruleset() {
    let nft = render_nft_policy("br\"lan", &[]);
    assert_eq!(
        nft,
        "table inet soya_asn_router {\n  chain prerouting {\n    type filter hook prerouting priority mangle; policy accept;\n  }\n}\n"
    );
}

#[test]
fn quotes_values() {
    assert_eq!(shell_quote("it's"), "'it'\"'\"'s'");
    assert_eq!(shell_quote(""), "''");
    assert_eq!(nft_quote("a\"b\\c"), "\"a\\\"b\\\\c\"");
    assert_eq!(nft_quote("br-lan"), "\"br-lan\"");
}

#[test]
fn sanitizes_identifiers() {
    assert_eq!(sanitize_nft_ident("wg-0.1"), "wg_0_1");
    assert_eq!(sanitize_nft_ident("WAN_2"), "WAN_2");
    assert_eq!(sanitize_nft_ident(""), "iface");
    assert_eq!(sanitize_nft_ident("é"), "_");
}

#[test]
fn renders_the_cleanup_script() {
    assert_eq!(
        render_route_cleanup_script(),
        "#!/bin/sh\nset -eu\n\nnft delete table inet soya_asn_router 2>/dev/null || true\ni=0\nwhile [ \"$i\" -lt 32 ]; do\n  ip -4 rule del pref $((30000 + i)) 2>/dev/null || true\n  ip -4 route flush table $((1000 + i)) 2>/dev/null || true\n  i=$((i + 1))\ndone\n\nip -4 route flush cache 2>/dev/null || true\n\n"
    );
}

#[test]
fn renders_the_route_script() {
    let mut wan = policy_group("wan\nx", 0x1200, &["8.8.8.0/24"], &[]);
    wan.device = "eth0".to_string();
    wan.default_route = Some(NetworkRoute {
        target: Some("0.0.0.0".to_string()),
        mask: Some(0),
        nexthop: Some(" 192.168.1.1 ".to_string()),
    });
    let mut wg = policy_group("wg0", 0x1201, &[], &["8.8.8.8/32"]);
    wg.table_id = 1001;
    wg.pref = 30001;
    let script = render_route_script(&[wan, wg]);
    let expected_tail = "nft -f '/etc/soya-asn-router/routes.nft'\n\n# target interface: wan x\nip -4 route replace default via '192.168.1.1' dev 'eth0' table 1000\nip -4 rule add pref 30000 fwmark 0x1200 lookup 1000\n# target interface: wg0\nip -4 route replace default dev 'wg0' table 1001\nip -4 rule add pref 30001 fwmark 0x1201 lookup 1001\n\nip -4 route flush cache 2>/dev/null || true\n";
    assert_eq!(script, format!("{}{}", render_route_cleanup_script(), expected_tail));
}

#[test]
fn describes_script_failures() {
    assert_eq!(
        route_script_error("", "  ", "exit status: 1"),
        "route policy script failed with status exit status: 1"
    );
    assert_eq!(route_script_error("out\n", "", "x"), "route policy script failed: out");
    assert_eq!(route_script_error("", " err ", "x"), "route policy script failed: err");
    assert_eq!(
        route_script_error("o", "e", "x"),
        "route policy script failed: e; stdout: o"
    );
}

fn iface(name: &str, device: Option<&str>, l3: Option<&str>, routes: Vec<NetworkRoute>) -> NetworkInterface {
    NetworkInterface {
        interface: name.to_string(),
        up: true,
        device: device.map(|s| s.to_string()),
        l3_device: l3.map(|s| s.to_string()),
        route: routes,
    }
}

fn interfaces() -> Vec<NetworkInterface> {
    vec![
        iface("lan", Some("eth1"), Some("br-lan"), vec![]),
        iface(
            "wan",
            Some("eth0"),
            None,
            vec![
                NetworkRoute { target: Some("10.0.0.0".into()), mask: Some(8), nexthop: Some("x".into()) },
                NetworkRoute {
                    target: Some("0.0.0.0".into()),
                    mask: Some(0),
                    nexthop: Some(" 192.168.1.1 ".into()),
                },
            ],
        ),
        iface("wg0", None, Some("wg0"), vec![]),
        iface("tun0", None, Some("  "), vec![]),
    ]
}

fn group(id: &str, interfaces: &[&str]) -> InterfaceGroupConfig {
    InterfaceGroupConfig {
        id: id.to_string(),
        name: id.to_string(),
        enabled: true,
        interfaces: interfaces.iter().map(|s| s.to_string()).collect(),
        check_enabled: true,
        check_url: "https://www.google.com/generate_204".to_string(),
        check_interval_seconds: 60,
        check_timeout_seconds: 5,
        failure_threshold: 3,
        recovery_threshold: 3,
        prefer_primary: true,
    }
}

fn asn(name: &str, target: &str) -> AsnConfig {
    AsnConfig { asn: name.into(), target_interface: target.into(), enabled: true }
}

fn config(asns: Vec<AsnConfig>, routes: Vec<CustomRouteConfig>) -> Config {
    Config {
        enabled: true,
        asns,
        custom_routes: routes,
        interface_groups: vec![group("vpn", &["wg0", "tun0"]), group("empty", &[])],
        lan_interface: "lan".into(),
        default_target_interface: "wan".into(),
        auto_apply_routes: true,
        periodic_sync_enabled: false,
        periodic_sync_mode: "all".into(),
        periodic_sync_interval_minutes: 1440,
        route_policy_enabled: true,
        proxy_enabled: false,
        proxy_type: "http".into(),
        proxy_url: None,
        db_path: "/etc/soya-asn-router/soya.db".into(),
    }
}

fn route(destination: &str, target: &str) -> CustomRouteConfig {
    CustomRouteConfig {
        name: None,
        destination: destination.into(),
        target_interface: target.into(),
        enabled: true,
    }
}

fn rows() -> Vec<(String, Vec<String>)> {
    vec![
        (
            "AS1".to_string(),
            vec!["10.0.0.0/8".to_string(), "bad".to_string(), "10.0.0.0/8".to_string()],
        ),
        ("AS3".to_string(), vec!["172.16.0.0/12".to_string()]),
    ]
}

#[test]
fn plans_one_group_per_target() {
    let cfg = config(
        vec![asn("AS1", "wan"), asn("AS3", "group:vpn"), asn("AS9", "ppp0")],
        vec![route("1.1.1.1/32", "wan")],
    );
    let states = vec![("vpn".to_string(), None)];
    let plan = build_policy_plan(&cfg, &interfaces(), &states, &rows()).ok().unwrap();
    assert_eq!(plan.lan_device, "br-lan");
    assert_eq!(plan.groups.len(), 2);
    let wan = &plan.groups[0];
    assert_eq!(wan.interface, "wan");
    assert_eq!(wan.device, "eth0");
    assert_eq!((wan.table_id, wan.mark, wan.pref), (1000, 0x1200, 30000));
    assert_eq!(wan.asn_set_name, "to_0_wan_v4");
    assert_eq!(wan.custom_set_name, "custom_to_0_wan_v4");
    assert_eq!((wan.asn_count, wan.custom_route_count), (1, 1));
    assert_eq!(wan.asn_prefixes, vec!["10.0.0.0/8"]);
    assert_eq!(wan.custom_prefixes, vec!["1.1.1.1/32"]);
    assert_eq!(
        wan.default_route.as_ref().and_then(|r| r.nexthop.clone()),
        Some(" 192.168.1.1 ".to_string())
    );
    let wg = &plan.groups[1];
    assert_eq!(wg.interface, "wg0");
    assert_eq!(wg.device, "wg0");
    assert_eq!((wg.table_id, wg.mark, wg.pref), (1001, 0x1201, 30001));
    assert_eq!(wg.asn_set_name, "to_1_wg0_v4");
    assert_eq!(wg.asn_prefixes, vec!["172.16.0.0/12"]);
    assert!(wg.custom_prefixes.is_empty());
    assert!(wg.default_route.is_none());

    assert_eq!(count_prefixes(&plan.groups), 3);
    let stats = plan_stats(&plan);
    assert_eq!((stats.interface_count, stats.ipv4_prefix_count), (2, 3));
    assert!(stats.warning.is_none());
    let preview = preview_from_plan(&plan);
    assert_eq!(preview.interface_count, 2);
    assert_eq!(preview.ipv4_prefix_count, 3);
    assert_eq!(preview.groups[0].sample_prefixes, vec!["1.1.1.1/32", "10.0.0.0/8"]);
    assert_eq!(preview.groups[0].default_route_nexthop, Some("192.168.1.1".to_string()));
    assert_eq!(preview.groups[0].asn_ipv4_prefix_count, 1);
    assert_eq!(preview.groups[0].custom_ipv4_prefix_count, 1);
    assert_eq!(preview.groups[1].default_route_nexthop, None);
}

#[test]
fn sample_prefixes_stop_at_the_limit() {
    let g = policy_group("wan", 0x1200, &["1.0.0.0/8", "2.0.0.0/8"], &["3.0.0.0/8"]);
    assert_eq!(g.sample_prefixes(2), vec!["3.0.0.0/8", "1.0.0.0/8"]);
    assert_eq!(g.sample_prefixes(10).len(), 3);
    assert_eq!(g.sample_prefixes(0).len(), 0);
    assert_eq!(g.ipv4_prefix_count(), 3);
}

#[test]
fn group_targets_follow_the_recorded_member() {
    let cfg = config(vec![asn("AS3", "group:vpn")], vec![]);
    let states = vec![("vpn".to_string(), Some("tun0".to_string()))];
    let t = resolve_target_interface(&cfg, "group:vpn", &states).ok().unwrap();
    assert_eq!(t, "tun0");
    let states = vec![("vpn".to_string(), Some("eth9".to_string()))];
    let t = resolve_target_interface(&cfg, "group:vpn", &states).ok().unwrap();
    assert_eq!(t, "wg0");
    let t = resolve_target_interface(&cfg, " wan ", &states).ok().unwrap();
    assert_eq!(t, " wan ");
}

#[test]
fn reports_unknown_and_empty_groups() {
    let cfg = config(vec![asn("AS1", "group:nope")], vec![]);
    let err = build_policy_plan(&cfg, &interfaces(), &vec![], &rows()).err().unwrap();
    assert!(matches!(err, PolicyError::GroupNotFound(ref id) if id == "nope"));
    let cfg = config(vec![asn("AS1", "group:empty")], vec![]);
    let err = build_policy_plan(&cfg, &interfaces(), &vec![], &rows()).err().unwrap();
    assert!(matches!(err, PolicyError::GroupNoActive(ref id) if id == "empty"));
}

#[test]
fn reports_missing_lan_and_targets() {
    let mut cfg = config(vec![asn("AS1", "wan")], vec![]);
    cfg.lan_interface = "nolan".into();
    let err = build_policy_plan(&cfg, &interfaces(), &vec![], &rows()).err().unwrap();
    assert!(matches!(err, PolicyError::LanNotFound(ref n) if n == "nolan"));

    let mut cfg = config(vec![asn("AS1", "wan")], vec![]);
    cfg.lan_interface = "tun0".into();
    let err = build_policy_plan(&cfg, &interfaces(), &vec![], &rows()).err().unwrap();
    assert!(matches!(err, PolicyError::LanNoDevice(ref n) if n == "tun0"));

    let cfg = config(vec![asn("AS1", "ppp0"), asn("AS3", "ppp1")], vec![]);
    let err = build_policy_plan(&cfg, &interfaces(), &vec![], &rows()).err().unwrap();
    assert!(matches!(err, PolicyError::TargetNotFound(ref n) if n == "ppp0"));

    let cfg = config(vec![asn("AS1", "tun0")], vec![]);
    let err = build_policy_plan(&cfg, &interfaces(), &vec![], &rows()).err().unwrap();
    assert!(matches!(err, PolicyError::TargetNoDevice(ref n) if n == "tun0"));
}

#[test]
fn refuses_too_many_targets() {
    let routes: Vec<CustomRouteConfig> = (0..33)
        .map(|i| route(&format!("10.0.{i}.0/24"), &format!("if{i:02}")))
        .collect();
    let cfg = config(vec![], routes);
    let err = build_policy_plan(&cfg, &interfaces(), &vec![], &rows()).err().unwrap();
    assert!(matches!(err, PolicyError::TooManyTargets(33)));
}

#[test]
fn targets_without_prefixes_are_left_out() {
    let cfg = config(vec![asn("AS1", "wan"), asn("AS7", "ppp0")], vec![]);
    let plan = build_policy_plan(&cfg, &interfaces(), &vec![], &rows()).ok().unwrap();
    assert_eq!(plan.groups.len(), 1);
    assert_eq!(plan.groups[0].interface, "wan");
}

#[test]
fn finds_interfaces_by_name_then_device() {
    let ifaces = interfaces();
    assert_eq!(find_interface(&ifaces, "wan").map(|i| i.interface.as_str()), Some("wan"));
    assert_eq!(find_interface(&ifaces, "br-lan").map(|i| i.interface.as_str()), Some("lan"));
    assert!(find_interface(&ifaces, "eth1").is_none());
    assert_eq!(ifaces[1].device_name(), Some("eth0".to_string()));
    assert_eq!(ifaces[3].device_name(), None);
    let default = ifaces[1].default_ipv4_route().unwrap();
    assert_eq!(default.nexthop, Some(" 192.168.1.1 ".to_string()));
    assert!(ifaces[0].default_ipv4_route().is_none());
}

#[test]
fn sorts_interfaces_by_name_keeping_ties_in_order() {
    let mut second_lan = iface("lan", None, None, vec![]);
    second_lan.up = false;
    let list = vec![
        iface("wg0", None, None, vec![]),
        iface("lan", None, None, vec![]),
        iface("wan", None, None, vec![]),
        second_lan,
    ];
    let sorted = sort_interfaces_by_name(list);
    let names: Vec<(&str, bool)> = sorted.iter().map(|i| (i.interface.as_str(), i.up)).collect();
    assert_eq!(names, vec![("lan", true), ("lan", false), ("wan", true), ("wg0", true)]);
}
