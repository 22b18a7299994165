use soya_asn_router::config::{
    group_id_from_target, load_interface_group_sections, normalize_asn, normalize_group_id,
    AsnConfig, Config, CustomRouteConfig, InterfaceGroupConfig,
};
use soya_asn_router::ipv4::{is_valid_ipv4_prefix, normalize_ipv4_prefix};
use soya_asn_router::uci::{decode_uci_values, parse_uci_sections};

#[test]
fn normalizes_ipv4_prefixes() {
    assert_eq!(
        normalize_ipv4_prefix("8.8.8.8"),
        Some("8.8.8.8/32".to_string())
    );
    assert_eq!(
        normalize_ipv4_prefix("8.8.8.9/24"),
        Some("8.8.8.0/24".to_string())
    );
    assert_eq!(
        normalize_ipv4_prefix("192.0.2.10/0"),
        Some("0.0.0.0/0".to_string())
    );
}

#[test]
fn rejects_invalid_ipv4_prefixes() {
    assert_eq!(normalize_ipv4_prefix("example.com"), None);
    assert_eq!(normalize_ipv4_prefix("8.8.8.8/33"), None);
    assert_eq!(normalize_ipv4_prefix("300.8.8.8"), None);
}

#[test]
fn decodes_uci_list_values() {
    assert_eq!(decode_uci_values("'wg0' 'tun0'"), vec!["wg0", "tun0"]);
    assert_eq!(
        decode_uci_values("'wg0'\\''backup' 'tun0'"),
        vec!["wg0'backup", "tun0"]
    );
    assert_eq!(decode_uci_values("'VPN Main'"), vec!["VPN Main"]);
}

#[test]
fn parses_interface_group_list_values() {
    let sections = parse_uci_sections(
        "soya-asn-router",
        "\
soya-asn-router.@interface_group[0]=interface_group
soya-asn-router.@interface_group[0].id='vpn_main'
soya-asn-router.@interface_group[0].interface='wg0' 'tun0'
",
    );
    let groups = load_interface_group_sections(&sections);

    assert_eq!(groups.len(), 1);
    assert_eq!(groups[0].interfaces, vec!["wg0", "tun0"]);
}

#[test]
fn normalized_prefix_is_valid_and_stable() {
    let once = normalize_ipv4_prefix(" 10.1.2.3/8 ").unwrap();
    assert_eq!(once, "10.0.0.0/8");
    assert!(is_valid_ipv4_prefix(&once));
    assert_eq!(normalize_ipv4_prefix(&once), Some(once.clone()));
    assert!(!is_valid_ipv4_prefix("10.0.0.0"));
    assert!(!is_valid_ipv4_prefix("10.0.0.01/8"));
}

#[test]
fn normalizes_asn_entries() {
    assert_eq!(normalize_asn("15169"), Some("AS15169".to_string()));
    assert_eq!(normalize_asn(" as15169 "), Some("AS15169".to_string()));
    assert_eq!(normalize_asn("AS4294967295"), Some("AS4294967295".to_string()));
    assert_eq!(normalize_asn("AS4294967296"), None);
    assert_eq!(normalize_asn("AS0"), None);
    assert_eq!(normalize_asn("AS"), None);
    assert_eq!(normalize_asn("AS12a"), None);
    assert_eq!(normalize_asn(""), None);
}

#[test]
fn normalizing_an_asn_twice_changes_nothing() {
    for input in ["15169", " as13335", "AS00042", "As1"] {
        let once = normalize_asn(input).unwrap();
        assert_eq!(normalize_asn(&once), Some(once.clone()));
    }
    assert_eq!(normalize_asn("AS00042"), Some("AS42".to_string()));
}

#[test]
fn reads_group_targets() {
    assert_eq!(group_id_from_target("group:vpn_main"), Some("vpn_main"));
    assert_eq!(group_id_from_target("  group: vpn  "), Some("vpn"));
    assert_eq!(group_id_from_target("group:"), None);
    assert_eq!(group_id_from_target("wan"), None);
    assert_eq!(group_id_from_target("Group:vpn"), None);
}

#[test]
fn normalizes_group_ids() {
    assert_eq!(normalize_group_id(" vpn-main_1 "), Some("vpn-main_1".to_string()));
    assert_eq!(normalize_group_id("vpn main"), None);
    assert_eq!(normalize_group_id(""), None);
}

fn group(id: &str, enabled: bool, interfaces: &[&str]) -> InterfaceGroupConfig {
    InterfaceGroupConfig {
        id: id.to_string(),
        name: id.to_string(),
        enabled,
        interfaces: interfaces.iter().map(|s| s.to_string()).collect(),
        check_enabled: true,
        check_url: "https://www.google.com/generate_204".to_string(),
        check_interval_seconds: 60,
        check_timeout_seconds: 5,
        failure_threshold: 3,
        recovery_threshold: 3,
        prefer_primary: true,
    }
}

fn sample_config() -> Config {
    Config {
        enabled: true,
        asns: vec![
            AsnConfig { asn: "AS1".into(), target_interface: "wan".into(), enabled: true },
            AsnConfig { asn: "AS2".into(), target_interface: "wg0".into(), enabled: false },
            AsnConfig { asn: "AS3".into(), target_interface: "group:vpn".into(), enabled: true },
        ],
        custom_routes: vec![
            CustomRouteConfig {
                name: None,
                destination: "8.8.8.8/32".into(),
                target_interface: "wg0".into(),
                enabled: false,
            },
            CustomRouteConfig {
                name: Some("dns".into()),
                destination: "1.1.1.1/32".into(),
                target_interface: "wan".into(),
                enabled: true,
            },
        ],
        interface_groups: vec![
            group("vpn", true, &["wg0", "tun0"]),
            group("off", false, &["wg1"]),
            group("empty", true, &[]),
        ],
        lan_interface: "lan".into(),
        default_target_interface: "wan".into(),
        auto_apply_routes: true,
        periodic_sync_enabled: false,
        periodic_sync_mode: "all".into(),
        periodic_sync_interval_minutes: 1440,
        route_policy_enabled: true,
        proxy_enabled: false,
        proxy_type: "http".into(),
        proxy_url: None,
        db_path: "/etc/soya-asn-router/soya.db".into(),
    }
}

#[test]
fn active_entries_are_the_enabled_ones() {
    let config = sample_config();
    let asns: Vec<&str> = config.active_asns().iter().map(|a| a.asn.as_str()).collect();
    assert_eq!(asns, vec!["AS1", "AS3"]);
    let routes: Vec<&str> = config
        .active_custom_routes()
        .iter()
        .map(|r| r.destination.as_str())
        .collect();
    assert_eq!(routes, vec!["1.1.1.1/32"]);
    let groups: Vec<&str> = config
        .active_interface_groups()
        .iter()
        .map(|g| g.id.as_str())
        .collect();
    assert_eq!(groups, vec!["vpn"]);
}

#[test]
fn finds_only_enabled_groups() {
    let config = sample_config();
    assert_eq!(config.find_interface_group("vpn").map(|g| g.id.as_str()), Some("vpn"));
    assert!(config.find_interface_group("off").is_none());
    assert!(config.find_interface_group("missing").is_none());
    assert_eq!(config.interface_groups[0].primary_interface(), Some("wg0"));
    assert_eq!(config.interface_groups[2].primary_interface(), None);
}
