# soya_asn_router

Policy routing by ASN for OpenWrt routers. The backend reads its
configuration from UCI, keeps announced prefixes from RIPEstat in SQLite, and
generates an nftables ruleset and a shell script that route LAN traffic to the
chosen prefixes through the chosen interface, VPN tunnel or tunnel failover
group.

The logic is a library verified with Verus (`src/`); the command that talks
to UCI, SQLite, ubus, curl and the network is ordinary Rust (`app/`).

## Library modules

- `text`, `assoc`, `strset`: characters, trimming and splitting, numbers in
  decimal and hexadecimal, the order of strings, small maps and sorted sets.
- `uci`: decoding `uci show` output into sections.
- `ipv4`: IPv4 prefixes, parsed, checked and normalized.
- `config`: the configuration (ASNs, custom routes, interface groups and
  settings) from UCI values and environment overrides.
- `edit`: removing duplicate ASNs, importing ASNs from text, bulk delete and
  bulk retarget; each edit is planned from the sections read and returns the
  sections to write back.
- `policy`: resolving targets (interfaces or `group:<id>`), grouping the
  prefixes by target and planning one routing table, mark and rule per
  target; previews and counts.
- `render`: the nftables ruleset, the routing script and the cleanup script.
- `health`: interface-group health counters, failover decisions and the
  check scheduler.
- `ripe`: RIPEstat answers, request URLs, proxy and import URL checks.
- `status`: the status report assembled from the stored records.
- `util`: stored error messages and the choice of ASNs to sync.

## Commands

`soya-asn-router [daemon|status|sync-missing|sync-all|preview-routes|check-groups|apply-routes|generate-routes|pause-routes|resume-routes|interfaces|dedupe-config|import-url URL INTERFACE|bulk-delete ASNS|bulk-set-interface ASNS INTERFACE]`
