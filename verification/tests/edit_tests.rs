use soya_asn_router::edit::{
    bulk_delete_asns, bulk_set_asn_interface, dedupe_asn_config, import_asns_from_text,
    parse_asn_set, prepare_import, EditError,
};
use soya_asn_router::uci::{parse_uci_sections, UciSection};

const SHOW: &str = "\
soya-asn-router.main=main
soya-asn-router.main.enabled='1'
soya-asn-router.@asn[0]=asn
soya-asn-router.@asn[0].asn='AS1'
soya-asn-router.@asn[0].interface='wan'
soya-asn-router.@asn[1]=asn
soya-asn-router.@asn[1].asn='as1'
soya-asn-router.@asn[2]=asn
soya-asn-router.@asn[2].asn='bad'
soya-asn-router.@asn[3]=asn
soya-asn-router.@asn[3].asn='15169'
soya-asn-router.@asn[3].interface=' '
soya-asn-router.@asn[3].enabled='0'
";

fn sections() -> Vec<UciSection> {
    parse_uci_sections("soya-asn-router", SHOW)
}

fn opt(section: &UciSection, key: &str) -> Option<String> {
    section
        .options
        .iter()
        .find(|(name, _)| name == key)
        .map(|(_, value)| value.clone())
}

#[test]
fn dedupe_keeps_first_entry_of_each_asn() {
    let plan = dedupe_asn_config(&sections());
    assert_eq!(plan.result.kept, 2);
    assert_eq!(plan.result.removed_duplicates, 1);
    assert_eq!(plan.result.removed_invalid, 1);
    assert!(plan.rewrite);
    assert_eq!(opt(&plan.sections[0], "asn"), Some("AS1".to_string()));
    assert_eq!(opt(&plan.sections[0], "interface"), Some("wan".to_string()));
    assert_eq!(opt(&plan.sections[0], "enabled"), Some("1".to_string()));
    assert_eq!(opt(&plan.sections[1], "asn"), Some("AS15169".to_string()));
    assert_eq!(opt(&plan.sections[1], "interface"), Some("wan".to_string()));
    assert_eq!(opt(&plan.sections[1], "enabled"), Some("0".to_string()));
}

#[test]
fn dedupe_a_second_time_removes_nothing() {
    let first = dedupe_asn_config(&sections());
    let second = dedupe_asn_config(&first.sections);
    assert_eq!(second.result.kept, 2);
    assert_eq!(second.result.removed_duplicates, 0);
    assert_eq!(second.result.removed_invalid, 0);
    assert!(!second.rewrite);
    for (a, b) in first.sections.iter().zip(second.sections.iter()) {
        for key in ["asn", "interface", "enabled"] {
            assert_eq!(opt(a, key), opt(b, key));
        }
    }
}

#[test]
fn dedupe_accounts_for_every_asn_section() {
    let plan = dedupe_asn_config(&sections());
    let r = plan.result;
    assert_eq!(r.kept + r.removed_duplicates + r.removed_invalid, 4);
}

#[test]
fn dedupe_of_clean_config_does_not_rewrite() {
    let clean = parse_uci_sections(
        "soya-asn-router",
        "soya-asn-router.@asn[0]=asn\nsoya-asn-router.@asn[0].asn='AS7'\n",
    );
    let plan = dedupe_asn_config(&clean);
    assert_eq!(plan.result.kept, 1);
    assert!(!plan.rewrite);
}

#[test]
fn prepares_import_tokens() {
    let request = prepare_import("AS1, 2;2 foo  as3", " wan ").ok().unwrap();
    assert_eq!(request.interface, "wan");
    assert_eq!(request.asns, vec!["AS1", "AS2", "AS3"]);
    assert_eq!(request.skipped_duplicate, 1);
    assert_eq!(request.invalid, 1);
}

#[test]
fn import_adds_only_new_asns() {
    let plan = import_asns_from_text("AS1, 2;2 foo  as3", " wan ", &sections())
        .ok()
        .unwrap();
    assert!(plan.dedupe.rewrite);
    assert_eq!(plan.result.imported, 2);
    assert_eq!(plan.result.skipped_existing, 1);
    assert_eq!(plan.result.skipped_duplicate, 1);
    assert_eq!(plan.result.invalid, 1);
    assert_eq!(plan.result.deduplicated, 2);
    assert_eq!(plan.result.interface, "wan");
    assert_eq!(plan.result.asns, vec!["AS2", "AS3"]);
    assert!(plan.rewrite);
    let asns: Vec<Option<String>> = plan.sections.iter().map(|s| opt(s, "asn")).collect();
    assert_eq!(
        asns,
        vec![
            Some("AS1".to_string()),
            Some("AS15169".to_string()),
            Some("AS2".to_string()),
            Some("AS3".to_string())
        ]
    );
    assert_eq!(opt(&plan.sections[2], "interface"), Some("wan".to_string()));
    assert_eq!(opt(&plan.sections[2], "enabled"), Some("1".to_string()));
    assert_eq!(plan.sections[2].section_type, Some("asn".to_string()));
}

#[test]
fn import_counts_every_token() {
    let plan = import_asns_from_text("AS1 AS1 x AS2 AS15169", "wg0", &sections())
        .ok()
        .unwrap();
    let r = plan.result;
    assert_eq!(r.imported + r.skipped_existing + r.skipped_duplicate + r.invalid, 5);
    assert_eq!(r.asns, vec!["AS2"]);
}

#[test]
fn import_of_known_asns_writes_nothing() {
    let plan = import_asns_from_text("AS1", "wan", &sections()).ok().unwrap();
    assert_eq!(plan.result.imported, 0);
    assert!(!plan.rewrite);
}

#[test]
fn import_requires_target_and_entries() {
    let err = import_asns_from_text("AS1", "  ", &sections()).err().unwrap();
    assert_eq!(err, EditError::TargetInterfaceRequired);
    assert_eq!(err.message(), "target interface is required");
    let err = import_asns_from_text("foo bar", "wan", &sections()).err().unwrap();
    assert_eq!(err, EditError::NoValidImportEntries);
    assert_eq!(err.message(), "import data does not contain valid ASN entries");
}

#[test]
fn parses_requested_asn_sets() {
    let set = parse_asn_set("as3,AS1;AS3 x 2");
    let names: Vec<String> = set.iter().map(|c| c.iter().collect()).collect();
    assert_eq!(names, vec!["AS1", "AS2", "AS3"]);
}

#[test]
fn bulk_delete_removes_every_matching_section() {
    let plan = bulk_delete_asns("AS1 as99 x", &sections()).ok().unwrap();
    assert_eq!(plan.result.requested, 2);
    assert_eq!(plan.result.deleted, 2);
    assert_eq!(plan.result.missing, 0);
    assert!(plan.rewrite);
    let asns: Vec<Option<String>> = plan.sections.iter().map(|s| opt(s, "asn")).collect();
    assert_eq!(asns, vec![Some("bad".to_string()), Some("15169".to_string())]);
}

#[test]
fn bulk_delete_reports_missing_asns() {
    let plan = bulk_delete_asns("AS5 AS6", &sections()).ok().unwrap();
    assert_eq!(plan.result.requested, 2);
    assert_eq!(plan.result.deleted, 0);
    assert_eq!(plan.result.missing, 2);
    assert!(!plan.rewrite);
    assert_eq!(plan.sections.len(), 4);
}

#[test]
fn bulk_delete_requires_an_asn() {
    let err = bulk_delete_asns("foo", &sections()).err().unwrap();
    assert_eq!(err, EditError::NoValidAsnEntries);
    assert_eq!(err.message(), "no valid ASN entries were provided");
}

#[test]
fn bulk_set_retargets_matching_sections() {
    let plan = bulk_set_asn_interface("15169", " wg0 ", &sections()).ok().unwrap();
    assert_eq!(plan.result.requested, 1);
    assert_eq!(plan.result.updated, 1);
    assert_eq!(plan.result.missing, 0);
    assert_eq!(plan.result.interface, "wg0");
    assert!(plan.rewrite);
    assert_eq!(plan.sections.len(), 4);
    assert_eq!(opt(&plan.sections[3], "interface"), Some("wg0".to_string()));
    assert_eq!(opt(&plan.sections[0], "interface"), Some("wan".to_string()));
    assert_eq!(opt(&plan.sections[1], "interface"), None);
}

#[test]
fn bulk_set_checks_request_then_target() {
    assert_eq!(
        bulk_set_asn_interface("", "wg0", &sections()).err().unwrap(),
        EditError::NoValidAsnEntries
    );
    assert_eq!(
        bulk_set_asn_interface("", "", &sections()).err().unwrap(),
        EditError::NoValidAsnEntries
    );
    assert_eq!(
        bulk_set_asn_interface("AS1", " ", &sections()).err().unwrap(),
        EditError::TargetInterfaceRequired
    );
}

#[test]
fn bulk_set_counts_missing_asns() {
    let plan = bulk_set_asn_interface("AS1 AS8", "tun0", &sections()).ok().unwrap();
    assert_eq!(plan.result.requested, 2);
    assert_eq!(plan.result.updated, 2);
    assert_eq!(plan.result.missing, 0);
    let plan = bulk_set_asn_interface("AS8", "tun0", &sections()).ok().unwrap();
    assert_eq!(plan.result.updated, 0);
    assert_eq!(plan.result.missing, 1);
    assert!(!plan.rewrite);
}

#[test]
fn dedupe_after_import_finds_nothing() {
    let plan = import_asns_from_text("AS9 as9 15169 AS10", "wg0", &sections())
        .ok()
        .unwrap();
    let again = dedupe_asn_config(&plan.sections);
    assert_eq!(again.result.removed_duplicates, 0);
    assert_eq!(again.result.removed_invalid, 0);
    assert_eq!(again.result.kept, plan.sections.len());
}
