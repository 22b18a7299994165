//! Fixed paths, names and defaults of the router integration.
use vstd::prelude::*;

verus! {

/// Where the SQLite database lives unless configured otherwise.
pub const DEFAULT_DB_PATH: &'static str = "/etc/soya-asn-router/soya.db";

/// The generated nftables file.
pub const ROUTES_NFT_PATH: &'static str = "/etc/soya-asn-router/routes.nft";

/// The generated routing script.
pub const ROUTES_SH_PATH: &'static str = "/etc/soya-asn-router/routes.sh";

/// The nftables table that holds the generated sets and rules.
pub const ROUTE_TABLE_NAME: &'static str = "soya_asn_router";

/// The first firewall mark; target `i` (in name order) uses `MARK_BASE + i`.
pub const MARK_BASE: u32 = 0x1200;

/// The first routing table id; target `i` uses `TABLE_ID_BASE + i`.
pub const TABLE_ID_BASE: u32 = 1000;

/// The first `ip rule` preference; target `i` uses `RULE_PREF_BASE + i`.
pub const RULE_PREF_BASE: u32 = 30000;

/// The most target interfaces a route policy may have.
pub const MAX_POLICY_GROUPS: u32 = 32;

/// The URL that interface groups fetch to check a tunnel.
pub const DEFAULT_GROUP_CHECK_URL: &'static str = "https://www.google.com/generate_204";

pub const DEFAULT_GROUP_CHECK_INTERVAL_SECONDS: u64 = 60;

pub const DEFAULT_GROUP_CHECK_TIMEOUT_SECONDS: u64 = 5;

pub const DEFAULT_GROUP_FAILURE_THRESHOLD: u32 = 3;

pub const DEFAULT_GROUP_RECOVERY_THRESHOLD: u32 = 3;

/// Seconds after which a sync lock is considered abandoned.
pub const LOCK_STALE_SECONDS: i64 = 3600;

/// Attempts to apply the route policy when the daemon starts.
pub const ROUTE_START_RETRIES: u32 = 5;

pub const ROUTE_START_RETRY_DELAY_SECONDS: u64 = 5;

/// The largest ASN import body, in bytes.
pub const MAX_IMPORT_BYTES: u64 = 262144;

/// The longest stored error message, in bytes, before `...`.
pub const ERROR_LIMIT: usize = 512;

} // verus!
