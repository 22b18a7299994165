use soya_asn_router::util::{select_asns_to_sync, truncate_error, SyncMode};

#[test]
fn keeps_short_messages() {
    assert_eq!(truncate_error("boom"), "boom");
    let exact = "x".repeat(512);
    assert_eq!(truncate_error(&exact), exact);
}

#[test]
fn truncates_long_messages() {
    let long = "y".repeat(600);
    let cut = truncate_error(&long);
    assert_eq!(cut, format!("{}...", "y".repeat(512)));
    let mixed = format!("{}{}", "é".repeat(256), "tail");
    assert_eq!(truncate_error(&mixed), format!("{}...", "é".repeat(256)));
}

#[test]
fn names_sync_modes() {
    assert_eq!(SyncMode::Missing.as_str(), "missing");
    assert_eq!(SyncMode::All.as_str(), "all");
}

#[test]
fn selects_asns_to_sync() {
    let asns = vec![
        ("AS1".to_string(), true),
        ("AS2".to_string(), false),
        ("AS3".to_string(), false),
    ];
    assert_eq!(select_asns_to_sync(SyncMode::All, &asns), vec!["AS1", "AS2", "AS3"]);
    assert_eq!(select_asns_to_sync(SyncMode::Missing, &asns), vec!["AS2", "AS3"]);
}
