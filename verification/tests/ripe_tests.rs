use soya_asn_router::config::Config;
use soya_asn_router::ripe::{
    announced_prefixes_url, as_overview_url, check_import_size, check_import_url,
    normalize_proxy_url, prefixes_from_response, provider_from_response, proxy_url_for,
    ImportUrlError, RipeData, RipeOverviewData, RipeOverviewResponse, RipePrefix, RipeResponse,
};

#[test]
fn reads_announced_prefixes() {
    let body = RipeResponse {
        status: Some("ok".to_string()),
        data: Some(RipeData {
            prefixes: vec![
                RipePrefix { prefix: "8.8.8.0/24".to_string() },
                RipePrefix { prefix: "2001:4860::/32".to_string() },
            ],
        }),
        messages: None,
    };
    assert_eq!(
        prefixes_from_response(body).ok(),
        Some(vec!["8.8.8.0/24".to_string(), "2001:4860::/32".to_string()])
    );
    let empty = RipeResponse { status: Some("ok".to_string()), data: None, messages: None };
    assert_eq!(prefixes_from_response(empty).ok(), Some(vec![]));
}

#[test]
fn reports_ripe_errors() {
    let body = RipeResponse {
        status: Some("error".to_string()),
        data: None,
        messages: Some(vec![vec!["error".to_string(), "Invalid resource".to_string()]]),
    };
    assert_eq!(prefixes_from_response(body).err(), Some("Invalid resource".to_string()));
    let body = RipeResponse { status: None, data: None, messages: Some(vec![vec!["x".to_string()]]) };
    assert_eq!(
        prefixes_from_response(body).err(),
        Some("RIPE response status is not ok".to_string())
    );
    let body = RipeOverviewResponse { status: Some("warn".to_string()), data: None, messages: None };
    assert_eq!(
        provider_from_response(body).err(),
        Some("RIPE AS overview status is not ok".to_string())
    );
}

#[test]
fn reads_the_holder() {
    let body = RipeOverviewResponse {
        status: Some("ok".to_string()),
        data: Some(RipeOverviewData { holder: Some("  GOOGLE - Google LLC ".to_string()) }),
        messages: None,
    };
    assert_eq!(provider_from_response(body).ok(), Some(Some("GOOGLE - Google LLC".to_string())));
    let blank = RipeOverviewResponse {
        status: Some("ok".to_string()),
        data: Some(RipeOverviewData { holder: Some("  ".to_string()) }),
        messages: None,
    };
    assert_eq!(provider_from_response(blank).ok(), Some(None));
}

#[test]
fn builds_request_urls() {
    assert_eq!(
        announced_prefixes_url("AS15169"),
        "https://stat.ripe.net/data/announced-prefixes/data.json?resource=AS15169"
    );
    assert_eq!(
        as_overview_url("AS15169"),
        "https://stat.ripe.net/data/as-overview/data.json?resource=AS15169"
    );
}

#[test]
fn normalizes_proxy_urls() {
    assert_eq!(normalize_proxy_url("socks5", " 127.0.0.1:1080 "), "socks5h://127.0.0.1:1080");
    assert_eq!(normalize_proxy_url("http", "proxy:3128"), "http://proxy:3128");
    assert_eq!(normalize_proxy_url("socks5", "http://p:1"), "http://p:1");
    assert_eq!(normalize_proxy_url("other", "p"), "http://p");
}

fn config(enabled: bool, url: Option<&str>) -> Config {
    Config {
        enabled: true,
        asns: vec![],
        custom_routes: vec![],
        interface_groups: vec![],
        lan_interface: "lan".into(),
        default_target_interface: "wan".into(),
        auto_apply_routes: true,
        periodic_sync_enabled: false,
        periodic_sync_mode: "all".into(),
        periodic_sync_interval_minutes: 1440,
        route_policy_enabled: true,
        proxy_enabled: enabled,
        proxy_type: "socks5".into(),
        proxy_url: url.map(|u| u.to_string()),
        db_path: "/tmp/x.db".into(),
    }
}

#[test]
fn picks_the_proxy() {
    assert_eq!(proxy_url_for(&config(true, Some("1.2.3.4:9050"))), Some("socks5h://1.2.3.4:9050".to_string()));
    assert_eq!(proxy_url_for(&config(false, Some("1.2.3.4:9050"))), None);
    assert_eq!(proxy_url_for(&config(true, None)), None);
}

#[test]
fn checks_import_urls() {
    assert!(check_import_url("https://example.com/asns.txt").is_ok());
    assert!(check_import_url("HTTP://example.com/").is_ok());
    let err = check_import_url("ftp://example.com/x").err().unwrap();
    assert!(matches!(err, ImportUrlError::NotHttp));
    assert_eq!(err.message(), "import URL must use HTTP or HTTPS");
    let err = check_import_url("not a url").err().unwrap();
    assert!(matches!(err, ImportUrlError::Invalid(_)));
    assert_eq!(err.message(), "invalid import URL: relative URL without a base");
}

#[test]
fn checks_import_sizes() {
    assert!(check_import_size(262144).is_ok());
    let err = check_import_size(262145).err().unwrap();
    assert_eq!(err.message(), "ASN import response is too large; maximum is 262144 bytes");
}
