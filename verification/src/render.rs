//! The files that put a route policy in place: the nftables ruleset that
//! marks traffic to the routed prefixes, and the shell script that loads it
//! and sets up one routing table and `ip rule` per target interface.
use vstd::prelude::*;

use crate::config::texts;
use crate::constants::{MAX_POLICY_GROUPS, ROUTES_NFT_PATH, ROUTE_TABLE_NAME, RULE_PREF_BASE, TABLE_ID_BASE};
use crate::policy::PolicyGroup;
use crate::text::{chars_of, dec, hex, owned, push_char, push_decimal, push_hex, push_str, trim, trim_string};

verus! {

// ---------------------------------------------------------------------------
// Quoting
// ---------------------------------------------------------------------------

/// `s` with every `c` replaced by `r`.
pub open spec fn replace_char(s: Seq<char>, c: char, r: Seq<char>) -> Seq<char>
    decreases s.len(),
{
    if s.len() == 0 {
        Seq::empty()
    } else {
        replace_char(s.drop_last(), c, r) + if s.last() == c {
            r
        } else {
            seq![s.last()]
        }
    }
}

/// `str::replace` with a character pattern.
pub fn replace_chars(s: &str, c: char, r: &str) -> (out: String)
    ensures
        out@ == replace_char(s@, c, r@),
{
    let v = chars_of(s);
    let mut out = String::new();
    for i in 0..v.len()
        invariant
            out@ == replace_char(v@.take(i as int), c, r@),
    {
        assert(v@.take(i + 1).drop_last() == v@.take(i as int));
        assert(v@.take(i + 1).last() == v@[i as int]);
        if v[i] == c {
            push_str(&mut out, r);
        } else {
            let ghost before = out@;
            push_char(&mut out, v[i]);
            assert(out@ == before + seq![v@[i as int]]);
        }
    }
    assert(v@.take(v.len() as int) == v@);
    out
}

/// A value quoted for the shell: in single quotes, each `'` written `'"'"'`.
pub open spec fn spec_shell_quote(v: Seq<char>) -> Seq<char> {
    "'"@ + replace_char(v, '\'', "'\"'\"'"@) + "'"@
}

/// A value quoted for the shell.
pub fn shell_quote(value: &str) -> (r: String)
    ensures
        r@ == spec_shell_quote(value@),
{
    let inner = replace_chars(value, '\'', "'\"'\"'");
    let mut r = owned("'");
    push_str(&mut r, inner.as_str());
    push_str(&mut r, "'");
    r
}

/// A value quoted for nftables: in double quotes, with `\` and `"` escaped.
pub open spec fn spec_nft_quote(v: Seq<char>) -> Seq<char> {
    "\""@ + replace_char(replace_char(v, '\\', "\\\\"@), '"', "\\\""@) + "\""@
}

/// A value quoted for nftables.
pub fn nft_quote(value: &str) -> (r: String)
    ensures
        r@ == spec_nft_quote(value@),
{
    let a = replace_chars(value, '\\', "\\\\");
    let b = replace_chars(a.as_str(), '"', "\\\"");
    let mut r = owned("\"");
    push_str(&mut r, b.as_str());
    push_str(&mut r, "\"");
    r
}

/// An interface name as a comment: line breaks become spaces.
pub open spec fn comment_text(s: Seq<char>) -> Seq<char> {
    s.map_values(|c: char| if c == '\n' || c == '\r' { ' ' } else { c })
}

fn push_comment_text(out: &mut String, s: &str)
    ensures
        final(out)@ == old(out)@ + comment_text(s@),
{
    let v = chars_of(s);
    let ghost start = out@;
    for i in 0..v.len()
        invariant
            out@ == start + comment_text(v@.take(i as int)),
    {
        let c = v[i];
        push_char(out, if c == '\n' || c == '\r' { ' ' } else { c });
        assert(comment_text(v@.take(i + 1)) == comment_text(v@.take(i as int)).push(
            if c == '\n' || c == '\r' { ' ' } else { c },
        ));
    }
    assert(v@.take(v.len() as int) == v@);
}

// ---------------------------------------------------------------------------
// The nftables ruleset
// ---------------------------------------------------------------------------

/// The element lines of a prefix set, for its first `n` prefixes: each
/// prefix but the last followed by a comma.
pub open spec fn element_lines(ps: Seq<Seq<char>>, n: int) -> Seq<char>
    decreases n,
{
    if n <= 0 || n > ps.len() {
        Seq::empty()
    } else {
        element_lines(ps, n - 1) + "      "@ + ps[n - 1] + (if n == ps.len() {
            ""@
        } else {
            ","@
        }) + "\n"@
    }
}

/// A named set of prefixes; nothing when there are no prefixes.
pub open spec fn prefix_set(name: Seq<char>, ps: Seq<Seq<char>>) -> Seq<char> {
    if ps.len() == 0 {
        Seq::empty()
    } else {
        "  set "@ + name + " {\n"@ + "    type ipv4_addr\n"@ + "    flags interval\n"@ + "    auto-merge\n"@
            + "    elements = {\n"@ + element_lines(ps, ps.len() as int) + "    }\n"@ + "  }\n\n"@
    }
}

/// The rule that marks traffic from the LAN device to a set.
pub open spec fn mark_rule(lan: Seq<char>, set_name: Seq<char>, mark: u32) -> Seq<char> {
    "    iifname "@ + spec_nft_quote(lan) + " ip daddr @"@ + set_name + " meta mark set 0x"@ + hex(mark as nat)
        + "\n"@
}

/// The prefix sets of the groups: for each, its ASN set then its custom set.
pub open spec fn group_sets(gs: Seq<PolicyGroup>) -> Seq<char>
    decreases gs.len(),
{
    if gs.len() == 0 {
        Seq::empty()
    } else {
        let g = gs.last();
        group_sets(gs.drop_last()) + prefix_set(g.asn_set_name@, texts(g.asn_prefixes@)) + prefix_set(
            g.custom_set_name@,
            texts(g.custom_prefixes@),
        )
    }
}

/// The mark rules for the ASN sets that are not empty.
pub open spec fn asn_rules(lan: Seq<char>, gs: Seq<PolicyGroup>) -> Seq<char>
    decreases gs.len(),
{
    if gs.len() == 0 {
        Seq::empty()
    } else {
        let g = gs.last();
        asn_rules(lan, gs.drop_last()) + if g.asn_prefixes.len() > 0 {
            mark_rule(lan, g.asn_set_name@, g.mark)
        } else {
            Seq::empty()
        }
    }
}

/// The mark rules for the custom sets that are not empty.
pub open spec fn custom_rules(lan: Seq<char>, gs: Seq<PolicyGroup>) -> Seq<char>
    decreases gs.len(),
{
    if gs.len() == 0 {
        Seq::empty()
    } else {
        let g = gs.last();
        custom_rules(lan, gs.drop_last()) + if g.custom_prefixes.len() > 0 {
            mark_rule(lan, g.custom_set_name@, g.mark)
        } else {
            Seq::empty()
        }
    }
}

/// The ruleset: the table with every set, then a prerouting chain with the
/// rules for the ASN sets followed by those for the custom sets.
pub open spec fn nft_policy(lan: Seq<char>, gs: Seq<PolicyGroup>) -> Seq<char> {
    "table inet "@ + ROUTE_TABLE_NAME@ + " {\n"@ + group_sets(gs) + "  chain prerouting {\n"@
        + "    type filter hook prerouting priority mangle; policy accept;\n"@ + asn_rules(lan, gs) + custom_rules(
        lan,
        gs,
    ) + "  }\n"@ + "}\n"@
}

/// Appends the set `name` of `prefixes`, if there are any.
fn render_prefix_set(nft: &mut String, set_name: &str, prefixes: &Vec<String>)
    ensures
        final(nft)@ == old(nft)@ + prefix_set(set_name@, texts(prefixes@)),
{
    if prefixes.len() == 0 {
        assert(old(nft)@ + Seq::<char>::empty() == old(nft)@);
        return;
    }
    let ghost start = nft@;
    let ghost ps = texts(prefixes@);
    push_str(nft, "  set ");
    push_str(nft, set_name);
    push_str(nft, " {\n");
    push_str(nft, "    type ipv4_addr\n");
    push_str(nft, "    flags interval\n");
    push_str(nft, "    auto-merge\n");
    push_str(nft, "    elements = {\n");
    let ghost head = nft@;
    assert(head == start + ("  set "@ + set_name@ + " {\n"@ + "    type ipv4_addr\n"@ + "    flags interval\n"@
        + "    auto-merge\n"@ + "    elements = {\n"@));
    for i in 0..prefixes.len()
        invariant
            ps == texts(prefixes@),
            nft@ == head + element_lines(ps, i as int),
    {
        push_str(nft, "      ");
        push_str(nft, prefixes[i].as_str());
        if i + 1 == prefixes.len() {
            push_str(nft, "");
        } else {
            push_str(nft, ",");
        }
        push_str(nft, "\n");
    }
    push_str(nft, "    }\n");
    push_str(nft, "  }\n\n");
}

/// Appends the mark rule for a set.
fn render_mark_rule(nft: &mut String, lan_device: &str, set_name: &str, mark: u32)
    ensures
        final(nft)@ == old(nft)@ + mark_rule(lan_device@, set_name@, mark),
{
    push_str(nft, "    iifname ");
    let q = nft_quote(lan_device);
    push_str(nft, q.as_str());
    push_str(nft, " ip daddr @");
    push_str(nft, set_name);
    push_str(nft, " meta mark set 0x");
    push_hex(nft, mark as u64);
    push_str(nft, "\n");
}

/// The nftables ruleset of a plan.
pub fn render_nft_policy(lan_device: &str, groups: &[PolicyGroup]) -> (r: String)
    ensures
        r@ == nft_policy(lan_device@, groups@),
{
    let mut nft = owned("table inet ");
    push_str(&mut nft, ROUTE_TABLE_NAME);
    push_str(&mut nft, " {\n");
    let ghost head = nft@;
    for i in 0..groups.len()
        invariant
            nft@ == head + group_sets(groups@.take(i as int)),
    {
        assert(groups@.take(i + 1).drop_last() == groups@.take(i as int));
        render_prefix_set(&mut nft, groups[i].asn_set_name.as_str(), &groups[i].asn_prefixes);
        render_prefix_set(&mut nft, groups[i].custom_set_name.as_str(), &groups[i].custom_prefixes);
    }
    assert(groups@.take(groups.len() as int) == groups@);
    push_str(&mut nft, "  chain prerouting {\n");
    push_str(&mut nft, "    type filter hook prerouting priority mangle; policy accept;\n");
    let ghost mid = nft@;
    for i in 0..groups.len()
        invariant
            nft@ == mid + asn_rules(lan_device@, groups@.take(i as int)),
    {
        assert(groups@.take(i + 1).drop_last() == groups@.take(i as int));
        if groups[i].asn_prefixes.len() > 0 {
            render_mark_rule(&mut nft, lan_device, groups[i].asn_set_name.as_str(), groups[i].mark);
        }
    }
    let ghost mid2 = nft@;
    for i in 0..groups.len()
        invariant
            nft@ == mid2 + custom_rules(lan_device@, groups@.take(i as int)),
    {
        assert(groups@.take(i + 1).drop_last() == groups@.take(i as int));
        if groups[i].custom_prefixes.len() > 0 {
            render_mark_rule(&mut nft, lan_device, groups[i].custom_set_name.as_str(), groups[i].mark);
        }
    }
    push_str(&mut nft, "  }\n");
    push_str(&mut nft, "}\n");
    nft
}

// ---------------------------------------------------------------------------
// The routing script
// ---------------------------------------------------------------------------

/// The script that removes a route policy: the nftables table, and the rule
/// and routing table of every target slot.
pub open spec fn cleanup_script() -> Seq<char> {
    "#!/bin/sh\n"@ + "set -eu\n\n"@ + "nft delete table inet "@ + ROUTE_TABLE_NAME@ + " 2>/dev/null || true\n"@
        + "i=0\n"@ + "while [ \"$i\" -lt "@ + dec(MAX_POLICY_GROUPS as nat) + " ]; do\n"@ + "  ip -4 rule del pref $(("@
        + dec(RULE_PREF_BASE as nat) + " + i)) 2>/dev/null || true\n"@ + "  ip -4 route flush table $(("@ + dec(
        TABLE_ID_BASE as nat,
    ) + " + i)) 2>/dev/null || true\n"@ + "  i=$((i + 1))\n"@ + "done\n\n"@
        + "ip -4 route flush cache 2>/dev/null || true\n\n"@
}

/// The script that removes a route policy.
pub fn render_route_cleanup_script() -> (r: String)
    ensures
        r@ == cleanup_script(),
{
    let mut s = owned("#!/bin/sh\n");
    push_str(&mut s, "set -eu\n\n");
    push_str(&mut s, "nft delete table inet ");
    push_str(&mut s, ROUTE_TABLE_NAME);
    push_str(&mut s, " 2>/dev/null || true\n");
    push_str(&mut s, "i=0\n");
    push_str(&mut s, "while [ \"$i\" -lt ");
    push_decimal(&mut s, MAX_POLICY_GROUPS as u64);
    push_str(&mut s, " ]; do\n");
    push_str(&mut s, "  ip -4 rule del pref $((");
    push_decimal(&mut s, RULE_PREF_BASE as u64);
    push_str(&mut s, " + i)) 2>/dev/null || true\n");
    push_str(&mut s, "  ip -4 route flush table $((");
    push_decimal(&mut s, TABLE_ID_BASE as u64);
    push_str(&mut s, " + i)) 2>/dev/null || true\n");
    push_str(&mut s, "  i=$((i + 1))\n");
    push_str(&mut s, "done\n\n");
    push_str(&mut s, "ip -4 route flush cache 2>/dev/null || true\n\n");
    s
}

/// The gateway of a group's default route: its next hop, trimmed, if that
/// is not blank.
pub open spec fn group_nexthop(g: PolicyGroup) -> Option<Seq<char>> {
    match g.default_route {
        Some(r) => match r.nexthop {
            Some(n) => if trim(n@).len() > 0 {
                Some(trim(n@))
            } else {
                None
            },
            None => None,
        },
        None => None,
    }
}

/// The gateway of a group's default route.
pub fn nexthop_of(g: &PolicyGroup) -> (r: Option<String>)
    ensures
        crate::config::opt_text(r) == group_nexthop(*g),
{
    match &g.default_route {
        Some(rt) => match &rt.nexthop {
            Some(n) => {
                let t = trim_string(n.as_str());
                if t.as_str().is_empty() {
                    None
                } else {
                    Some(t)
                }
            },
            None => None,
        },
        None => None,
    }
}

/// The lines of the script for one target: a comment, the default route of
/// its routing table, and the rule that sends marked traffic to that table.
pub open spec fn group_lines(g: PolicyGroup) -> Seq<char> {
    let device = spec_shell_quote(g.device@);
    "# target interface: "@ + comment_text(g.interface@) + "\n"@ + match group_nexthop(g) {
        Some(n) => "ip -4 route replace default via "@ + spec_shell_quote(n) + " dev "@ + device + " table "@ + dec(
            g.table_id as nat,
        ) + "\n"@,
        None => "ip -4 route replace default dev "@ + device + " table "@ + dec(g.table_id as nat) + "\n"@,
    } + "ip -4 rule add pref "@ + dec(g.pref as nat) + " fwmark 0x"@ + hex(g.mark as nat) + " lookup "@ + dec(
        g.table_id as nat,
    ) + "\n"@
}

pub open spec fn all_group_lines(gs: Seq<PolicyGroup>) -> Seq<char>
    decreases gs.len(),
{
    if gs.len() == 0 {
        Seq::empty()
    } else {
        all_group_lines(gs.drop_last()) + group_lines(gs.last())
    }
}

/// The script that puts a plan in place: the cleanup, loading the ruleset,
/// the lines of each target, and flushing the route cache.
pub open spec fn route_script(gs: Seq<PolicyGroup>) -> Seq<char> {
    cleanup_script() + "nft -f "@ + spec_shell_quote(ROUTES_NFT_PATH@) + "\n\n"@ + all_group_lines(gs)
        + "\nip -4 route flush cache 2>/dev/null || true\n"@
}

fn render_group_lines(script: &mut String, g: &PolicyGroup)
    ensures
        final(script)@ == old(script)@ + group_lines(*g),
{
    let device = shell_quote(g.device.as_str());
    push_str(script, "# target interface: ");
    push_comment_text(script, g.interface.as_str());
    push_str(script, "\n");
    match nexthop_of(g) {
        Some(n) => {
            push_str(script, "ip -4 route replace default via ");
            let q = shell_quote(n.as_str());
            push_str(script, q.as_str());
            push_str(script, " dev ");
            push_str(script, device.as_str());
            push_str(script, " table ");
            push_decimal(script, g.table_id as u64);
            push_str(script, "\n");
        },
        None => {
            push_str(script, "ip -4 route replace default dev ");
            push_str(script, device.as_str());
            push_str(script, " table ");
            push_decimal(script, g.table_id as u64);
            push_str(script, "\n");
        },
    }
    push_str(script, "ip -4 rule add pref ");
    push_decimal(script, g.pref as u64);
    push_str(script, " fwmark 0x");
    push_hex(script, g.mark as u64);
    push_str(script, " lookup ");
    push_decimal(script, g.table_id as u64);
    push_str(script, "\n");
}

/// The script that puts a plan in place.
pub fn render_route_script(groups: &[PolicyGroup]) -> (r: String)
    ensures
        r@ == route_script(groups@),
{
    let mut script = render_route_cleanup_script();
    push_str(&mut script, "nft -f ");
    let q = shell_quote(ROUTES_NFT_PATH);
    push_str(&mut script, q.as_str());
    push_str(&mut script, "\n\n");
    let ghost head = script@;
    for i in 0..groups.len()
        invariant
            script@ == head + all_group_lines(groups@.take(i as int)),
    {
        assert(groups@.take(i + 1).drop_last() == groups@.take(i as int));
        render_group_lines(&mut script, &groups[i]);
    }
    assert(groups@.take(groups.len() as int) == groups@);
    push_str(&mut script, "\nip -4 route flush cache 2>/dev/null || true\n");
    script
}

/// The message for a routing script that failed: what it wrote to stderr
/// and stdout, trimmed, or else its exit status.
pub open spec fn script_error_text(stdout: Seq<char>, stderr: Seq<char>, status: Seq<char>) -> Seq<char> {
    let o = trim(stdout);
    let e = trim(stderr);
    if o.len() == 0 && e.len() == 0 {
        "route policy script failed with status "@ + status
    } else if e.len() == 0 {
        "route policy script failed: "@ + o
    } else if o.len() == 0 {
        "route policy script failed: "@ + e
    } else {
        "route policy script failed: "@ + e + "; stdout: "@ + o
    }
}

/// The message for a routing script that failed, from its output and its
/// exit status as text.
pub fn route_script_error(stdout: &str, stderr: &str, status: &str) -> (r: String)
    ensures
        r@ == script_error_text(stdout@, stderr@, status@),
{
    let o = trim_string(stdout);
    let e = trim_string(stderr);
    if o.as_str().is_empty() && e.as_str().is_empty() {
        let mut r = owned("route policy script failed with status ");
        push_str(&mut r, status);
        return r;
    }
    let mut r = owned("route policy script failed: ");
    if e.as_str().is_empty() {
        push_str(&mut r, o.as_str());
    } else if o.as_str().is_empty() {
        push_str(&mut r, e.as_str());
    } else {
        push_str(&mut r, e.as_str());
        push_str(&mut r, "; stdout: ");
        push_str(&mut r, o.as_str());
    }
    r
}

// ---------------------------------------------------------------------------
// Laws
// ---------------------------------------------------------------------------

/// `part` stands in `text` from position `k` on.
pub open spec fn occurs_at(text: Seq<char>, part: Seq<char>, k: int) -> bool {
    0 <= k && k + part.len() <= text.len() && text.subrange(k, k + part.len()) == part
}

pub proof fn lemma_occurs_in_prefix(a: Seq<char>, b: Seq<char>, part: Seq<char>, k: int)
    requires
        occurs_at(a, part, k),
    ensures
        occurs_at(a + b, part, k),
{
    assert((a + b).subrange(k, k + part.len()) == a.subrange(k, k + part.len()));
}

pub proof fn lemma_occurs_shifted(a: Seq<char>, b: Seq<char>, part: Seq<char>, k: int)
    requires
        occurs_at(b, part, k),
    ensures
        occurs_at(a + b, part, a.len() + k),
{
    assert((a + b).subrange(a.len() + k, a.len() + k + part.len()) == b.subrange(k, k + part.len()));
}

/// The rule of every group with ASN prefixes stands among the ASN rules.
pub proof fn lemma_asn_rule_listed(lan: Seq<char>, gs: Seq<PolicyGroup>, i: int)
    requires
        0 <= i < gs.len(),
        gs[i].asn_prefixes.len() > 0,
    ensures
        exists|k: int| occurs_at(asn_rules(lan, gs), mark_rule(lan, gs[i].asn_set_name@, gs[i].mark), k),
    decreases gs.len(),
{
    let rule = mark_rule(lan, gs[i].asn_set_name@, gs[i].mark);
    let pre = gs.drop_last();
    if i == gs.len() - 1 {
        assert(asn_rules(lan, gs) == asn_rules(lan, pre) + rule);
        assert(occurs_at(rule, rule, 0)) by {
            assert(rule.subrange(0, rule.len() as int) == rule);
        }
        lemma_occurs_shifted(asn_rules(lan, pre), rule, rule, 0);
    } else {
        assert(pre[i] == gs[i]);
        lemma_asn_rule_listed(lan, pre, i);
        let k = choose|k: int| occurs_at(asn_rules(lan, pre), rule, k);
        let last = if gs.last().asn_prefixes.len() > 0 {
            mark_rule(lan, gs.last().asn_set_name@, gs.last().mark)
        } else {
            Seq::empty()
        };
        assert(asn_rules(lan, gs) == asn_rules(lan, pre) + last);
        lemma_occurs_in_prefix(asn_rules(lan, pre), last, rule, k);
    }
}

/// The rule of every group with custom prefixes stands among the custom rules.
pub proof fn lemma_custom_rule_listed(lan: Seq<char>, gs: Seq<PolicyGroup>, i: int)
    requires
        0 <= i < gs.len(),
        gs[i].custom_prefixes.len() > 0,
    ensures
        exists|k: int| occurs_at(custom_rules(lan, gs), mark_rule(lan, gs[i].custom_set_name@, gs[i].mark), k),
    decreases gs.len(),
{
    let rule = mark_rule(lan, gs[i].custom_set_name@, gs[i].mark);
    let pre = gs.drop_last();
    if i == gs.len() - 1 {
        assert(custom_rules(lan, gs) == custom_rules(lan, pre) + rule);
        assert(occurs_at(rule, rule, 0)) by {
            assert(rule.subrange(0, rule.len() as int) == rule);
        }
        lemma_occurs_shifted(custom_rules(lan, pre), rule, rule, 0);
    } else {
        assert(pre[i] == gs[i]);
        lemma_custom_rule_listed(lan, pre, i);
        let k = choose|k: int| occurs_at(custom_rules(lan, pre), rule, k);
        let last = if gs.last().custom_prefixes.len() > 0 {
            mark_rule(lan, gs.last().custom_set_name@, gs.last().mark)
        } else {
            Seq::empty()
        };
        assert(custom_rules(lan, gs) == custom_rules(lan, pre) + last);
        lemma_occurs_in_prefix(custom_rules(lan, pre), last, rule, k);
    }
}

/// In the ruleset, the rule that marks traffic to a group's ASN set comes
/// before the rule that marks traffic to any group's custom set.
pub proof fn lemma_custom_rules_after_asn_rules(lan: Seq<char>, gs: Seq<PolicyGroup>, i: int, j: int)
    requires
        0 <= i < gs.len(),
        0 <= j < gs.len(),
        gs[i].asn_prefixes.len() > 0,
        gs[j].custom_prefixes.len() > 0,
    ensures
        exists|a: int, c: int|
            occurs_at(nft_policy(lan, gs), mark_rule(lan, gs[i].asn_set_name@, gs[i].mark), a) && occurs_at(
                nft_policy(lan, gs),
                mark_rule(lan, gs[j].custom_set_name@, gs[j].mark),
                c,
            ) && a + mark_rule(lan, gs[i].asn_set_name@, gs[i].mark).len() <= c,
{
    let ra = mark_rule(lan, gs[i].asn_set_name@, gs[i].mark);
    let rc = mark_rule(lan, gs[j].custom_set_name@, gs[j].mark);
    let head = "table inet "@ + ROUTE_TABLE_NAME@ + " {\n"@ + group_sets(gs) + "  chain prerouting {\n"@
        + "    type filter hook prerouting priority mangle; policy accept;\n"@;
    let ar = asn_rules(lan, gs);
    let cr = custom_rules(lan, gs);
    let tail = "  }\n"@ + "}\n"@;
    assert(nft_policy(lan, gs) == (head + ar) + cr + tail);
    lemma_asn_rule_listed(lan, gs, i);
    lemma_custom_rule_listed(lan, gs, j);
    let ka = choose|k: int| occurs_at(ar, ra, k);
    let kc = choose|k: int| occurs_at(cr, rc, k);
    lemma_occurs_shifted(head, ar, ra, ka);
    lemma_occurs_in_prefix(head + ar, cr, ra, head.len() + ka);
    lemma_occurs_in_prefix((head + ar) + cr, tail, ra, head.len() + ka);
    lemma_occurs_shifted(head + ar, cr, rc, kc);
    lemma_occurs_in_prefix((head + ar) + cr, tail, rc, (head + ar).len() + kc);
    assert(occurs_at(nft_policy(lan, gs), ra, head.len() + ka));
    assert(occurs_at(nft_policy(lan, gs), rc, (head + ar).len() + kc));
}

/// The set of a group's ASN prefixes, or of its custom prefixes.
pub open spec fn group_set(g: PolicyGroup, custom: bool) -> Seq<char> {
    if custom {
        prefix_set(g.custom_set_name@, texts(g.custom_prefixes@))
    } else {
        prefix_set(g.asn_set_name@, texts(g.asn_prefixes@))
    }
}

/// The rule that marks traffic to a group's ASN set, or to its custom set.
pub open spec fn group_rule(lan: Seq<char>, g: PolicyGroup, custom: bool) -> Seq<char> {
    if custom {
        mark_rule(lan, g.custom_set_name@, g.mark)
    } else {
        mark_rule(lan, g.asn_set_name@, g.mark)
    }
}

/// Both sets of every group stand among the group sets.
pub proof fn lemma_group_set_listed(gs: Seq<PolicyGroup>, i: int, custom: bool)
    requires
        0 <= i < gs.len(),
    ensures
        exists|k: int| occurs_at(group_sets(gs), group_set(gs[i], custom), k),
    decreases gs.len(),
{
    let set = group_set(gs[i], custom);
    let pre = gs.drop_last();
    let g = gs.last();
    let a = prefix_set(g.asn_set_name@, texts(g.asn_prefixes@));
    let c = prefix_set(g.custom_set_name@, texts(g.custom_prefixes@));
    assert(group_sets(gs) == (group_sets(pre) + a) + c);
    assert(occurs_at(set, set, 0)) by {
        assert(set.subrange(0, set.len() as int) == set);
    }
    if i == gs.len() - 1 {
        if custom {
            lemma_occurs_shifted(group_sets(pre) + a, c, set, 0);
        } else {
            lemma_occurs_shifted(group_sets(pre), a, set, 0);
            lemma_occurs_in_prefix(group_sets(pre) + a, c, set, group_sets(pre).len() as int);
        }
    } else {
        assert(pre[i] == gs[i]);
        lemma_group_set_listed(pre, i, custom);
        let k = choose|k: int| occurs_at(group_sets(pre), set, k);
        lemma_occurs_in_prefix(group_sets(pre), a, set, k);
        lemma_occurs_in_prefix(group_sets(pre) + a, c, set, k);
    }
}

/// Every set that a mark rule of the ruleset refers to is defined in it,
/// before the rule: for each group with ASN prefixes (or custom prefixes),
/// its ASN set (or custom set) of those prefixes stands in the ruleset ahead
/// of the rule that marks traffic to it.
pub proof fn lemma_marked_sets_defined(lan: Seq<char>, gs: Seq<PolicyGroup>, i: int, custom: bool)
    requires
        0 <= i < gs.len(),
        custom ==> gs[i].custom_prefixes.len() > 0,
        !custom ==> gs[i].asn_prefixes.len() > 0,
    ensures
        exists|a: int, r: int|
            occurs_at(nft_policy(lan, gs), group_set(gs[i], custom), a) && occurs_at(
                nft_policy(lan, gs),
                group_rule(lan, gs[i], custom),
                r,
            ) && a + group_set(gs[i], custom).len() <= r,
{
    let set = group_set(gs[i], custom);
    let rule = group_rule(lan, gs[i], custom);
    let top = "table inet "@ + ROUTE_TABLE_NAME@ + " {\n"@;
    let sets = group_sets(gs);
    let chain = "  chain prerouting {\n"@ + "    type filter hook prerouting priority mangle; policy accept;\n"@;
    let ar = asn_rules(lan, gs);
    let cr = custom_rules(lan, gs);
    let tail = "  }\n"@ + "}\n"@;
    let nft = nft_policy(lan, gs);
    assert(nft == (top + sets) + ((chain + ar + cr) + tail));
    assert(nft == (top + sets + chain + ar) + (cr + tail));
    assert(nft == (top + sets + chain) + (ar + (cr + tail)));
    lemma_group_set_listed(gs, i, custom);
    let k = choose|k: int| occurs_at(sets, set, k);
    lemma_occurs_shifted(top, sets, set, k);
    lemma_occurs_in_prefix(top + sets, (chain + ar + cr) + tail, set, top.len() + k);
    if custom {
        lemma_custom_rule_listed(lan, gs, i);
        let kc = choose|kc: int| occurs_at(cr, rule, kc);
        lemma_occurs_in_prefix(cr, tail, rule, kc);
        lemma_occurs_shifted(top + sets + chain + ar, cr + tail, rule, kc);
        assert(occurs_at(nft, rule, (top + sets + chain + ar).len() + kc));
    } else {
        lemma_asn_rule_listed(lan, gs, i);
        let ka = choose|ka: int| occurs_at(ar, rule, ka);
        lemma_occurs_in_prefix(ar, cr + tail, rule, ka);
        lemma_occurs_shifted(top + sets + chain, ar + (cr + tail), rule, ka);
        assert(occurs_at(nft, rule, (top + sets + chain).len() + ka));
    }
    assert(occurs_at(nft, set, top.len() + k));
}

} // verus!
