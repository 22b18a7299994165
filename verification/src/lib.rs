//! Policy routing by ASN for OpenWrt routers: configuration parsing and
//! normalization, interface-group failover decisions, route policy planning
//! and rendering of the nftables and shell files.
pub mod assoc;
pub mod config;
pub mod constants;
pub mod edit;
pub mod health;
pub mod ipv4;
pub mod policy;
pub mod render;
pub mod ripe;
pub mod status;
pub mod strset;
pub mod text;
pub mod uci;
pub mod util;
