//! The router's configuration: ASN entries, custom IPv4 routes and interface
//! groups, how they are read from UCI output, normalized and edited.
use vstd::prelude::*;

use crate::constants::{
    DEFAULT_DB_PATH,
    DEFAULT_GROUP_CHECK_INTERVAL_SECONDS, DEFAULT_GROUP_CHECK_TIMEOUT_SECONDS,
    DEFAULT_GROUP_CHECK_URL, DEFAULT_GROUP_FAILURE_THRESHOLD, DEFAULT_GROUP_RECOVERY_THRESHOLD,
};
use crate::ipv4::{normalize_ipv4_prefix, spec_normalize_ipv4_prefix};
use crate::strset::{lemma_insert_sorted, search_sorted, sorted_strict};
use crate::uci::{parse_uci_sections, spec_parse_uci, section_views, sections_well_formed, SectionView, UciSection};
use crate::text::{
    split_by,
    split_chars,
    views,
    Sep,
    str_eq,
    all_digits,
    alnum,
    chars_of,
    dec,
    digit,
    is_alnum,
    lemma_dec,
    lemma_trim_noop,
    lower_all,
    lower_seq,
    owned,
    parse_u64,
    parse_uint,
    push_decimal,
    same_chars,
    starts_with,
    string_from,
    trim,
    trim_bounds,
    trimmed,
    upper_all,
    upper_seq,
    digits_value,
    is_digit,
};

verus! {

/// One configured ASN and the interface (or `group:<id>`) it is routed to.
pub struct AsnConfig {
    pub asn: String,
    pub target_interface: String,
    pub enabled: bool,
}

/// One custom IPv4 prefix and the interface it is routed to.
pub struct CustomRouteConfig {
    pub name: Option<String>,
    pub destination: String,
    pub target_interface: String,
    pub enabled: bool,
}

/// An ordered group of interfaces with health-check failover.
pub struct InterfaceGroupConfig {
    pub id: String,
    pub name: String,
    pub enabled: bool,
    pub interfaces: Vec<String>,
    pub check_enabled: bool,
    pub check_url: String,
    pub check_interval_seconds: u64,
    pub check_timeout_seconds: u64,
    pub failure_threshold: u32,
    pub recovery_threshold: u32,
    pub prefer_primary: bool,
}

/// The texts of a sequence of strings.
pub open spec fn texts(v: Seq<String>) -> Seq<Seq<char>> {
    v.map_values(|s: String| s@)
}

pub open spec fn opt_text(o: Option<String>) -> Option<Seq<char>> {
    match o {
        Some(s) => Some(s@),
        None => None,
    }
}

pub open spec fn opt_str_text(o: Option<&str>) -> Option<Seq<char>> {
    match o {
        Some(s) => Some(s@),
        None => None,
    }
}

impl InterfaceGroupConfig {
    /// The group's interfaces, in order.
    pub open spec fn members(&self) -> Seq<Seq<char>> {
        texts(self.interfaces@)
    }

    /// The first interface of the group.
    pub fn primary_interface(&self) -> (r: Option<&str>)
        ensures
            r is Some <==> self.interfaces@.len() > 0,
            r matches Some(p) ==> p@ == self.members()[0],
    {
        if self.interfaces.len() > 0 {
            Some(self.interfaces[0].as_str())
        } else {
            None
        }
    }
}

/// Whether `name` is one of the group's interfaces.
pub fn is_member(group: &InterfaceGroupConfig, name: &[char]) -> (r: bool)
    ensures
        r == group.members().contains(name@),
{
    let mut i: usize = 0;
    while i < group.interfaces.len()
        invariant
            i <= group.interfaces.len(),
            forall|k: int| 0 <= k < i ==> group.members()[k] != name@,
        decreases group.interfaces.len() - i,
    {
        let item = chars_of(group.interfaces[i].as_str());
        if same_chars(item.as_slice(), name) {
            assert(group.members()[i as int] == name@);
            return true;
        }
        i += 1;
    }
    false
}


// ---------------------------------------------------------------------------
// Normalizing single values
// ---------------------------------------------------------------------------

/// `value` (or `fallback` when absent), trimmed; `fallback` when that is empty.
pub open spec fn spec_normalize_interface(value: Option<Seq<char>>, fallback: Seq<char>) -> Seq<char> {
    let v = trim(
        match value {
            Some(v) => v,
            None => fallback,
        },
    );
    if v.len() == 0 {
        fallback
    } else {
        v
    }
}

/// An interface name as configured: trimmed, or `fallback` when empty or absent.
pub fn normalize_interface_value(value: Option<&str>, fallback: &str) -> (r: String)
    ensures
        r@ == spec_normalize_interface(opt_str_text(value), fallback@),
{
    let v = match value {
        Some(v) => v,
        None => fallback,
    };
    let t = crate::text::trim_string(v);
    if t.as_str().is_empty() {
        owned(fallback)
    } else {
        t
    }
}

pub open spec fn id_char(c: char) -> bool {
    is_alnum(c) || c == '_' || c == '-'
}

/// A group id: the trimmed text, if it is not empty and holds only ASCII
/// letters, digits, `_` and `-`.
pub open spec fn spec_normalize_group_id(value: Seq<char>) -> Option<Seq<char>> {
    let t = trim(value);
    if t.len() > 0 && forall|i: int| 0 <= i < t.len() ==> id_char(#[trigger] t[i]) {
        Some(t)
    } else {
        None
    }
}

pub fn normalize_group_id(value: &str) -> (r: Option<String>)
    ensures
        opt_text(r) == spec_normalize_group_id(value@),
{
    let v = chars_of(value);
    let t = trimmed(v.as_slice());
    if t.len() == 0 {
        return None;
    }
    let mut i: usize = 0;
    while i < t.len()
        invariant
            i <= t.len(),
            t@ == trim(value@),
            t@.len() > 0,
            forall|k: int| 0 <= k < i ==> id_char(#[trigger] t@[k]),
        decreases t.len() - i,
    {
        let c = t[i];
        if !(alnum(c) || c == '_' || c == '-') {
            assert(!id_char(t@[i as int]));
            return None;
        }
        i += 1;
    }
    Some(string_from(t.as_slice()))
}

pub open spec fn group_prefix() -> Seq<char> {
    seq!['g', 'r', 'o', 'u', 'p', ':']
}

/// The group id named by a target of the form `group:<id>` (both parts trimmed).
pub open spec fn spec_group_id_from_target(target: Seq<char>) -> Option<Seq<char>> {
    let t = trim(target);
    if starts_with(t, group_prefix()) {
        let id = trim(t.skip(6));
        if id.len() > 0 {
            Some(id)
        } else {
            None
        }
    } else {
        None
    }
}

pub fn group_id_from_target(target: &str) -> (r: Option<&str>)
    ensures
        opt_str_text(r) == spec_group_id_from_target(target@),
{
    let v = chars_of(target);
    let (lo, hi) = trim_bounds(v.as_slice());
    let ghost t = v@.subrange(lo as int, hi as int);
    let lit: [char; 6] = ['g', 'r', 'o', 'u', 'p', ':'];
    assert(lit@ == group_prefix());
    if !matches_at(v.as_slice(), lo, &lit) || lo + 6 > hi {
        proof {
            if starts_with(t, group_prefix()) {
                assert(v@.subrange(lo as int, lo + 6) == t.take(6));
            }
        }
        return None;
    }
    assert(t.take(6) == v@.subrange(lo as int, lo + 6));
    let rest = copy_range(v.as_slice(), lo + 6, hi);
    assert(rest@ == t.skip(6));
    let (a, b) = trim_bounds(rest.as_slice());
    if a == b {
        return None;
    }
    let r = target.substring_char(lo + 6 + a, lo + 6 + b);
    assert(r@ == rest@.subrange(a as int, b as int));
    Some(r)
}

/// Whether the characters of `lit` stand in `v` from `start` on.
pub fn matches_at(v: &[char], start: usize, lit: &[char]) -> (b: bool)
    ensures
        b == (start + lit@.len() <= v@.len() && v@.subrange(start as int, start + lit@.len()) == lit@),
{
    if start > v.len() || lit.len() > v.len() - start {
        return false;
    }
    let mut i: usize = 0;
    while i < lit.len()
        invariant
            start + lit@.len() <= v@.len(),
            start as int + lit.len() as int <= v.len() as int,
            i <= lit.len(),
            forall|k: int| 0 <= k < i ==> v@[start + k] == lit@[k],
        decreases lit.len() - i,
    {
        if v[start + i] != lit[i] {
            assert(v@.subrange(start as int, start + lit@.len())[i as int] != lit@[i as int]);
            return false;
        }
        i += 1;
    }
    assert(v@.subrange(start as int, start + lit@.len()) == lit@);
    true
}

/// A copy of `v` from `lo` up to `hi`.
pub fn copy_range(v: &[char], lo: usize, hi: usize) -> (r: Vec<char>)
    requires
        lo <= hi <= v.len(),
    ensures
        r@ == v@.subrange(lo as int, hi as int),
{
    let mut r: Vec<char> = Vec::new();
    let mut i = lo;
    while i < hi
        invariant
            lo <= i <= hi <= v.len(),
            r@ == v@.subrange(lo as int, i as int),
        decreases hi - i,
    {
        r.push(v[i]);
        assert(v@.subrange(lo as int, i + 1) == v@.subrange(lo as int, i as int).push(v@[i as int]));
        i += 1;
    }
    r
}


// ---------------------------------------------------------------------------
// ASN numbers
// ---------------------------------------------------------------------------

/// The digits of an ASN entry: trimmed, uppercased, without a leading `AS`.
pub open spec fn asn_digits(value: Seq<char>) -> Seq<char> {
    let u = upper_seq(trim(value));
    if u.len() >= 2 && u[0] == 'A' && u[1] == 'S' {
        u.skip(2)
    } else {
        u
    }
}

pub open spec fn as_prefix() -> Seq<char> {
    seq!['A', 'S']
}

/// The canonical form of an ASN entry: `AS` and the number in decimal, for a
/// number from 1 to `u32::MAX` written with or without `AS` (any case) and
/// surrounding whitespace.
pub open spec fn spec_normalize_asn(value: Seq<char>) -> Option<Seq<char>> {
    let n = asn_digits(value);
    if n.len() > 0 && all_digits(n) && digits_value(n) <= u32::MAX && digits_value(n) != 0 {
        Some(as_prefix() + dec(digits_value(n)))
    } else {
        None
    }
}

fn all_digit_chars(v: &[char]) -> (r: bool)
    ensures
        r == all_digits(v@),
{
    let mut i: usize = 0;
    while i < v.len()
        invariant
            i <= v.len(),
            forall|k: int| 0 <= k < i ==> is_digit(#[trigger] v@[k]),
        decreases v.len() - i,
    {
        if !digit(v[i]) {
            assert(!is_digit(v@[i as int]));
            return false;
        }
        i += 1;
    }
    true
}

/// Normalizes an ASN entry such as `15169`, `as15169` or ` AS15169 ` to `AS15169`.
pub fn normalize_asn(value: &str) -> (r: Option<String>)
    ensures
        opt_text(r) == spec_normalize_asn(value@),
{
    let v = chars_of(value);
    let t = trimmed(v.as_slice());
    let u = upper_all(t.as_slice());
    let start: usize = if u.len() >= 2 && u[0] == 'A' && u[1] == 'S' {
        2
    } else {
        0
    };
    let number = copy_range(u.as_slice(), start, u.len());
    assert(number@ == asn_digits(value@));
    if number.len() == 0 || !all_digit_chars(number.as_slice()) {
        return None;
    }
    let parsed = parse_u64(number.as_slice());
    assert(crate::text::uint_body(number@) == number@);
    match parsed {
        Some(n) => {
            if n > 4294967295 || n == 0 {
                return None;
            }
            let mut out = String::new();
            crate::text::push_char(&mut out, 'A');
            crate::text::push_char(&mut out, 'S');
            push_decimal(&mut out, n);
            assert(out@ == as_prefix() + dec(n as nat));
            Some(out)
        },
        None => None,
    }
}

pub proof fn lemma_canonical_asn_chars(n: nat)
    requires
        0 < n <= u32::MAX,
    ensures
        asn_digits(as_prefix() + dec(n)) == dec(n),
{
    lemma_dec(n);
    let y = as_prefix() + dec(n);
    assert(y[0] == 'A');
    assert(y[y.len() - 1] == dec(n)[dec(n).len() - 1]);
    assert(is_digit(dec(n)[dec(n).len() - 1]));
    lemma_trim_noop(y);
    assert forall|i: int| 0 <= i < y.len() implies crate::text::upper(#[trigger] y[i]) == y[i] by {
        if i >= 2 {
            assert(y[i] == dec(n)[i - 2]);
            assert(is_digit(dec(n)[i - 2]));
        }
    }
    assert(upper_seq(y) == y);
    assert(y.skip(2) == dec(n));
}

/// Normalizing an already normalized ASN gives it back unchanged.
pub proof fn lemma_normalize_asn_idempotent(value: Seq<char>)
    requires
        spec_normalize_asn(value) is Some,
    ensures
        spec_normalize_asn(spec_normalize_asn(value).unwrap()) == spec_normalize_asn(value),
{
    let n = digits_value(asn_digits(value));
    lemma_canonical_asn_chars(n);
    lemma_dec(n);
}

/// Every number from 1 to `u32::MAX` written as `AS<n>` is its own canonical form.
pub proof fn lemma_canonical_asn_is_fixed(n: nat)
    requires
        0 < n <= u32::MAX,
    ensures
        spec_normalize_asn(as_prefix() + dec(n)) == Some(as_prefix() + dec(n)),
{
    lemma_canonical_asn_chars(n);
    lemma_dec(n);
}

// ---------------------------------------------------------------------------
// Option values
// ---------------------------------------------------------------------------

pub open spec fn true_word(t: Seq<char>) -> bool {
    t == seq!['1'] || t == seq!['t', 'r', 'u', 'e'] || t == seq!['y', 'e', 's'] || t == seq!['o', 'n']
        || t == seq!['e', 'n', 'a', 'b', 'l', 'e', 'd']
}

pub open spec fn false_word(t: Seq<char>) -> bool {
    t == seq!['0'] || t == seq!['f', 'a', 'l', 's', 'e'] || t == seq!['n', 'o'] || t == seq!['o', 'f', 'f']
        || t == seq!['d', 'i', 's', 'a', 'b', 'l', 'e', 'd']
}

/// A boolean option: `1`, `true`, `yes`, `on`, `enabled` or `0`, `false`, `no`,
/// `off`, `disabled`, in any ASCII case and with surrounding whitespace.
pub open spec fn spec_parse_bool(value: Option<Seq<char>>) -> Option<bool> {
    match value {
        None => None,
        Some(v) => {
            let t = lower_seq(trim(v));
            if true_word(t) {
                Some(true)
            } else if false_word(t) {
                Some(false)
            } else {
                None
            }
        },
    }
}

pub fn parse_bool(value: Option<&str>) -> (r: Option<bool>)
    ensures
        r == spec_parse_bool(opt_str_text(value)),
{
    let v = match value {
        Some(v) => v,
        None => return None,
    };
    let c = chars_of(v);
    let tc = trimmed(c.as_slice());
    let t = lower_all(tc.as_slice());
    let w = t.as_slice();
    let t1: [char; 1] = ['1'];
    let t2: [char; 4] = ['t', 'r', 'u', 'e'];
    let t3: [char; 3] = ['y', 'e', 's'];
    let t4: [char; 2] = ['o', 'n'];
    let t5: [char; 7] = ['e', 'n', 'a', 'b', 'l', 'e', 'd'];
    let f1: [char; 1] = ['0'];
    let f2: [char; 5] = ['f', 'a', 'l', 's', 'e'];
    let f3: [char; 2] = ['n', 'o'];
    let f4: [char; 3] = ['o', 'f', 'f'];
    let f5: [char; 8] = ['d', 'i', 's', 'a', 'b', 'l', 'e', 'd'];
    assert(t1@ == seq!['1'] && t2@ == seq!['t', 'r', 'u', 'e'] && t3@ == seq!['y', 'e', 's']);
    assert(t4@ == seq!['o', 'n'] && t5@ == seq!['e', 'n', 'a', 'b', 'l', 'e', 'd']);
    assert(f1@ == seq!['0'] && f2@ == seq!['f', 'a', 'l', 's', 'e'] && f3@ == seq!['n', 'o']);
    assert(f4@ == seq!['o', 'f', 'f'] && f5@ == seq!['d', 'i', 's', 'a', 'b', 'l', 'e', 'd']);
    if same_chars(w, &t1) || same_chars(w, &t2) || same_chars(w, &t3) || same_chars(w, &t4)
        || same_chars(w, &t5) {
        Some(true)
    } else if same_chars(w, &f1) || same_chars(w, &f2) || same_chars(w, &f3) || same_chars(w, &f4)
        || same_chars(w, &f5) {
        Some(false)
    } else {
        None
    }
}

pub open spec fn missing_word() -> Seq<char> {
    seq!['m', 'i', 's', 's', 'i', 'n', 'g']
}

/// The periodic sync mode: `missing` when so configured, else `all`.
pub fn normalize_sync_mode(value: Option<&str>) -> (r: String)
    ensures
        r@ == (if value matches Some(v) && trim(v@) == missing_word() {
            "missing"@
        } else {
            "all"@
        }),
{
    if let Some(v) = value {
        let c = chars_of(v);
        let t = trimmed(c.as_slice());
        let word: [char; 7] = ['m', 'i', 's', 's', 'i', 'n', 'g'];
        assert(word@ == missing_word());
        if same_chars(t.as_slice(), &word) {
            return owned("missing");
        }
    }
    owned("all")
}

/// A positive number option: the trimmed text as an unsigned number no greater
/// than `max`, if that is above zero; else `default`.
pub open spec fn spec_positive_or(value: Option<Seq<char>>, max: nat, default: nat) -> nat {
    match value {
        Some(v) => match parse_uint(trim(v), max) {
            Some(n) => if n > 0 {
                n
            } else {
                default
            },
            None => default,
        },
        None => default,
    }
}

fn positive_u64(value: Option<&str>, default: u64) -> (r: u64)
    ensures
        r == spec_positive_or(opt_str_text(value), u64::MAX as nat, default as nat),
{
    match value {
        Some(v) => {
            let c = chars_of(v);
            let t = trimmed(c.as_slice());
            match parse_u64(t.as_slice()) {
                Some(n) => if n > 0 {
                    n
                } else {
                    default
                },
                None => default,
            }
        },
        None => default,
    }
}

/// The sync interval in minutes; 1440 unless a positive number is configured.
pub fn parse_interval_minutes(value: Option<String>) -> (r: u64)
    ensures
        r == spec_positive_or(opt_text(value), u64::MAX as nat, 1440),
{
    match &value {
        Some(v) => positive_u64(Some(v.as_str()), 1440),
        None => positive_u64(None, 1440),
    }
}

pub fn parse_u64_option(value: Option<&String>, default: u64) -> (r: u64)
    ensures
        r == spec_positive_or(
            match value {
                Some(v) => Some(v@),
                None => None,
            },
            u64::MAX as nat,
            default as nat,
        ),
{
    match value {
        Some(v) => positive_u64(Some(v.as_str()), default),
        None => positive_u64(None, default),
    }
}

pub fn parse_u32_option(value: Option<&String>, default: u32) -> (r: u32)
    ensures
        r == spec_positive_or(
            match value {
                Some(v) => Some(v@),
                None => None,
            },
            u32::MAX as nat,
            default as nat,
        ),
{
    match value {
        Some(v) => {
            let c = chars_of(v.as_str());
            let t = trimmed(c.as_slice());
            match parse_u64(t.as_slice()) {
                Some(n) => if n > 0 && n <= 4294967295 {
                    n as u32
                } else {
                    default
                },
                None => default,
            }
        },
        None => default,
    }
}


// ---------------------------------------------------------------------------
// Views of the configuration entries
// ---------------------------------------------------------------------------

pub struct AsnView {
    pub asn: Seq<char>,
    pub target_interface: Seq<char>,
    pub enabled: bool,
}

impl View for AsnConfig {
    type V = AsnView;

    open spec fn view(&self) -> AsnView {
        AsnView { asn: self.asn@, target_interface: self.target_interface@, enabled: self.enabled }
    }
}

pub struct RouteView {
    pub name: Option<Seq<char>>,
    pub destination: Seq<char>,
    pub target_interface: Seq<char>,
    pub enabled: bool,
}

impl View for CustomRouteConfig {
    type V = RouteView;

    open spec fn view(&self) -> RouteView {
        RouteView {
            name: opt_text(self.name),
            destination: self.destination@,
            target_interface: self.target_interface@,
            enabled: self.enabled,
        }
    }
}

pub struct GroupView {
    pub id: Seq<char>,
    pub name: Seq<char>,
    pub enabled: bool,
    pub interfaces: Seq<Seq<char>>,
    pub check_enabled: bool,
    pub check_url: Seq<char>,
    pub check_interval_seconds: u64,
    pub check_timeout_seconds: u64,
    pub failure_threshold: u32,
    pub recovery_threshold: u32,
    pub prefer_primary: bool,
}

impl View for InterfaceGroupConfig {
    type V = GroupView;

    open spec fn view(&self) -> GroupView {
        GroupView {
            id: self.id@,
            name: self.name@,
            enabled: self.enabled,
            interfaces: self.members(),
            check_enabled: self.check_enabled,
            check_url: self.check_url@,
            check_interval_seconds: self.check_interval_seconds,
            check_timeout_seconds: self.check_timeout_seconds,
            failure_threshold: self.failure_threshold,
            recovery_threshold: self.recovery_threshold,
            prefer_primary: self.prefer_primary,
        }
    }
}

pub open spec fn asn_views(v: Seq<AsnConfig>) -> Seq<AsnView> {
    v.map_values(|a: AsnConfig| a@)
}

pub open spec fn route_views(v: Seq<CustomRouteConfig>) -> Seq<RouteView> {
    v.map_values(|a: CustomRouteConfig| a@)
}

pub open spec fn group_views(v: Seq<InterfaceGroupConfig>) -> Seq<GroupView> {
    v.map_values(|a: InterfaceGroupConfig| a@)
}

// ---------------------------------------------------------------------------
// Reading entries from UCI sections
// ---------------------------------------------------------------------------

pub open spec fn opt_of(sec: SectionView, key: Seq<char>) -> Option<Seq<char>> {
    if sec.options.contains_key(key) {
        Some(sec.options[key])
    } else {
        None
    }
}

pub open spec fn bool_or(v: Option<bool>, d: bool) -> bool {
    match v {
        Some(b) => b,
        None => d,
    }
}

pub open spec fn is_type(sec: SectionView, t: Seq<char>) -> bool {
    sec.section_type == Some(t)
}

/// The value of option `key` of a section.
pub fn option_str<'a>(sec: &'a UciSection, key: &str) -> (r: Option<&'a str>)
    requires
        sec.well_formed(),
    ensures
        opt_str_text(r) == opt_of(sec@, key@),
{
    let k = chars_of(key);
    match sec.option(k.as_slice()) {
        Some(v) => Some(v.as_str()),
        None => None,
    }
}

/// Whether a section has type `t`.
pub fn section_has_type(sec: &UciSection, t: &str) -> (r: bool)
    ensures
        r == is_type(sec@, t@),
{
    match &sec.section_type {
        Some(st) => str_eq(st.as_str(), t),
        None => false,
    }
}

/// The ASN entry of an `asn` section, if its `asn` option normalizes.
pub open spec fn spec_asn_entry(sec: SectionView, default: Seq<char>) -> Option<AsnView> {
    if !is_type(sec, "asn"@) {
        None
    } else {
        match opt_of(sec, "asn"@) {
            None => None,
            Some(a) => match spec_normalize_asn(a) {
                None => None,
                Some(n) => Some(
                    AsnView {
                        asn: n,
                        target_interface: spec_normalize_interface(opt_of(sec, "interface"@), default),
                        enabled: bool_or(spec_parse_bool(opt_of(sec, "enabled"@)), true),
                    },
                ),
            },
        }
    }
}

pub open spec fn spec_load_asns(secs: Seq<SectionView>, default: Seq<char>) -> Seq<AsnView> {
    secs.filter_map(|s: SectionView| spec_asn_entry(s, default))
}

/// The `interface` option of a section, trimmed, when it is not blank.
pub open spec fn named_interface(sec: SectionView) -> Option<Seq<char>> {
    match opt_of(sec, "interface"@) {
        Some(i) => if trim(i).len() > 0 {
            Some(trim(i))
        } else {
            None
        },
        None => None,
    }
}

/// An ASN section routes to its own `interface` option, trimmed, whenever
/// that is not blank; only a missing or blank option falls back on the
/// default interface: as given for a blank option, trimmed (unless that is
/// blank) for a missing one.
pub proof fn lemma_asn_section_target(sec: SectionView, default: Seq<char>)
    requires
        spec_asn_entry(sec, default) is Some,
    ensures
        named_interface(sec) matches Some(i) ==> spec_asn_entry(sec, default).unwrap().target_interface == i,
        opt_of(sec, "interface"@) is Some && named_interface(sec) is None ==> spec_asn_entry(
            sec,
            default,
        ).unwrap().target_interface == default,
        opt_of(sec, "interface"@) is None ==> (spec_asn_entry(sec, default).unwrap().target_interface == trim(
            default,
        ) || (trim(default).len() == 0 && spec_asn_entry(sec, default).unwrap().target_interface == default)),
        spec_asn_entry(sec, default).unwrap().asn == spec_normalize_asn(opt_of(sec, "asn"@).unwrap()).unwrap(),
{
}

/// Every ASN section with a valid ASN loads as an entry with that ASN,
/// routed to the section's own interface when it names one.
pub proof fn lemma_loaded_asn_routes_to_section_interface(secs: Seq<SectionView>, default: Seq<char>, k: int)
    requires
        0 <= k < secs.len(),
        spec_asn_entry(secs[k], default) is Some,
        named_interface(secs[k]) is Some,
    ensures
        exists|j: int|
            0 <= j < spec_load_asns(secs, default).len() && #[trigger] spec_load_asns(secs, default)[j].asn
                == spec_normalize_asn(opt_of(secs[k], "asn"@).unwrap()).unwrap() && spec_load_asns(
                secs,
                default,
            )[j].target_interface == named_interface(secs[k]).unwrap(),
    decreases secs.len(),
{
    lemma_asn_section_target(secs[k], default);
    let f = |s: SectionView| spec_asn_entry(s, default);
    let pre = secs.drop_last();
    let e = spec_asn_entry(secs[k], default).unwrap();
    if k == secs.len() - 1 {
        assert(secs.filter_map(f) == pre.filter_map(f).push(e)) by {
            reveal_with_fuel(Seq::filter_map, 1);
            assert(secs.last() == secs[k]);
        }
        let j = pre.filter_map(f).len() as int;
        assert(spec_load_asns(secs, default)[j] == e);
    } else {
        assert(pre[k] == secs[k]);
        lemma_loaded_asn_routes_to_section_interface(pre, default, k);
        let j = choose|j: int|
            0 <= j < spec_load_asns(pre, default).len() && #[trigger] spec_load_asns(pre, default)[j].asn
                == spec_normalize_asn(opt_of(pre[k], "asn"@).unwrap()).unwrap() && spec_load_asns(
                pre,
                default,
            )[j].target_interface == named_interface(pre[k]).unwrap();
        assert(secs.filter_map(f) == (match f(secs.last()) {
            Some(x) => pre.filter_map(f).push(x),
            None => pre.filter_map(f),
        })) by {
            reveal_with_fuel(Seq::filter_map, 1);
        }
        assert(spec_load_asns(secs, default)[j] == spec_load_asns(pre, default)[j]);
    }
}

fn asn_entry(sec: &UciSection, default: &str) -> (r: Option<AsnConfig>)
    requires
        sec.well_formed(),
    ensures
        match r {
            Some(a) => spec_asn_entry(sec@, default@) == Some(a@),
            None => spec_asn_entry(sec@, default@) is None,
        },
{
    if !section_has_type(sec, "asn") {
        return None;
    }
    let a = match option_str(sec, "asn") {
        Some(a) => a,
        None => return None,
    };
    let asn = match normalize_asn(a) {
        Some(n) => n,
        None => return None,
    };
    let target_interface = normalize_interface_value(option_str(sec, "interface"), default);
    let enabled = match parse_bool(option_str(sec, "enabled")) {
        Some(b) => b,
        None => true,
    };
    Some(AsnConfig { asn, target_interface, enabled })
}

/// The ASN entries of the `asn` sections, in order; sections whose `asn`
/// option is missing or invalid are skipped.
pub fn load_asn_sections(sections: &Vec<UciSection>, default_target_interface: &str) -> (r: Vec<AsnConfig>)
    requires
        sections_well_formed(sections@),
    ensures
        asn_views(r@) == spec_load_asns(section_views(sections@), default_target_interface@),
{
    let ghost secs = section_views(sections@);
    let mut r: Vec<AsnConfig> = Vec::new();
    for i in 0..sections.len()
        invariant
            secs == section_views(sections@),
            sections_well_formed(sections@),
            asn_views(r@) == spec_load_asns(secs.take(i as int), default_target_interface@),
    {
        assert(secs.take(i + 1).drop_last() == secs.take(i as int));
        assert(secs.take(i + 1).last() == sections@[i as int]@);
        assert(sections@[i as int].well_formed());
        match asn_entry(&sections[i], default_target_interface) {
            Some(a) => {
                let ghost prev = r@;
                r.push(a);
                assert(asn_views(r@) == asn_views(prev) + seq![a@]);
            },
            None => {},
        }
    }
    assert(secs.take(sections.len() as int) == secs);
    r
}

/// The custom route of a `custom_route` section, if its destination normalizes.
pub open spec fn spec_route_entry(sec: SectionView, default: Seq<char>) -> Option<RouteView> {
    if !is_type(sec, "custom_route"@) {
        None
    } else {
        match opt_of(sec, "destination"@) {
            None => None,
            Some(d) => match spec_normalize_ipv4_prefix(d) {
                None => None,
                Some(dest) => Some(
                    RouteView {
                        name: match opt_of(sec, "name"@) {
                            Some(n) => if trim(n).len() > 0 {
                                Some(trim(n))
                            } else {
                                None
                            },
                            None => None,
                        },
                        destination: dest,
                        target_interface: spec_normalize_interface(opt_of(sec, "interface"@), default),
                        enabled: bool_or(spec_parse_bool(opt_of(sec, "enabled"@)), true),
                    },
                ),
            },
        }
    }
}

pub open spec fn spec_load_routes(secs: Seq<SectionView>, default: Seq<char>) -> Seq<RouteView> {
    secs.filter_map(|s: SectionView| spec_route_entry(s, default))
}

/// The trimmed text, if it is not empty.
fn trimmed_nonempty_str(v: &str) -> (r: Option<String>)
    ensures
        opt_text(r) == (if trim(v@).len() > 0 {
            Some(trim(v@))
        } else {
            None
        }),
{
    let t = crate::text::trim_string(v);
    if t.as_str().is_empty() {
        None
    } else {
        Some(t)
    }
}

fn route_entry(sec: &UciSection, default: &str) -> (r: Option<CustomRouteConfig>)
    requires
        sec.well_formed(),
    ensures
        match r {
            Some(a) => spec_route_entry(sec@, default@) == Some(a@),
            None => spec_route_entry(sec@, default@) is None,
        },
{
    if !section_has_type(sec, "custom_route") {
        return None;
    }
    let name = match option_str(sec, "name") {
        Some(n) => trimmed_nonempty_str(n),
        None => None,
    };
    let d = match option_str(sec, "destination") {
        Some(d) => d,
        None => return None,
    };
    let destination = match normalize_ipv4_prefix(d) {
        Some(x) => x,
        None => return None,
    };
    let target_interface = normalize_interface_value(option_str(sec, "interface"), default);
    let enabled = match parse_bool(option_str(sec, "enabled")) {
        Some(b) => b,
        None => true,
    };
    Some(CustomRouteConfig { name, destination, target_interface, enabled })
}

/// The custom routes of the `custom_route` sections, in order; sections whose
/// destination is missing or not an IPv4 prefix are skipped.
pub fn load_custom_route_sections(sections: &Vec<UciSection>, default_target_interface: &str) -> (r: Vec<CustomRouteConfig>)
    requires
        sections_well_formed(sections@),
    ensures
        route_views(r@) == spec_load_routes(section_views(sections@), default_target_interface@),
{
    let ghost secs = section_views(sections@);
    let mut r: Vec<CustomRouteConfig> = Vec::new();
    for i in 0..sections.len()
        invariant
            secs == section_views(sections@),
            sections_well_formed(sections@),
            route_views(r@) == spec_load_routes(secs.take(i as int), default_target_interface@),
    {
        assert(secs.take(i + 1).drop_last() == secs.take(i as int));
        assert(secs.take(i + 1).last() == sections@[i as int]@);
        assert(sections@[i as int].well_formed());
        match route_entry(&sections[i], default_target_interface) {
            Some(a) => {
                let ghost prev = r@;
                r.push(a);
                assert(route_views(r@) == route_views(prev) + seq![a@]);
            },
            None => {},
        }
    }
    assert(secs.take(sections.len() as int) == secs);
    r
}


// ---------------------------------------------------------------------------
// Interface groups
// ---------------------------------------------------------------------------

/// The trimmed pieces that are not empty.
pub open spec fn trimmed_nonempty(ps: Seq<Seq<char>>) -> Seq<Seq<char>> {
    ps.filter_map(
        |p: Seq<char>|
            if trim(p).len() > 0 {
                Some(trim(p))
            } else {
                None
            },
    )
}

/// The interface names in one option value, separated by `,` or whitespace.
pub open spec fn pieces_of(v: Seq<char>) -> Seq<Seq<char>> {
    trimmed_nonempty(split_by(v, Sep::CommaOrSpace))
}

/// The interface names in a list of option values.
pub open spec fn interface_items(values: Seq<Seq<char>>) -> Seq<Seq<char>>
    decreases values.len(),
{
    if values.len() == 0 {
        Seq::empty()
    } else {
        interface_items(values.drop_last()) + pieces_of(values.last())
    }
}

/// The first occurrence of each name, in order.
pub open spec fn dedup_first(s: Seq<Seq<char>>) -> Seq<Seq<char>>
    decreases s.len(),
{
    if s.len() == 0 {
        Seq::empty()
    } else {
        let r = dedup_first(s.drop_last());
        if r.contains(s.last()) {
            r
        } else {
            r.push(s.last())
        }
    }
}

pub open spec fn trimmed_or(v: Option<Seq<char>>, d: Seq<char>) -> Seq<char> {
    match v {
        Some(x) => if trim(x).len() > 0 {
            trim(x)
        } else {
            d
        },
        None => d,
    }
}

/// The interface group of an `interface_group` section, if its id (option
/// `id`, else the section name) is a valid group id.
pub open spec fn spec_group_entry(sec: SectionView) -> Option<GroupView> {
    if !is_type(sec, "interface_group"@) {
        None
    } else {
        let id_src = match opt_of(sec, "id"@) {
            Some(x) => x,
            None => sec.name,
        };
        match spec_normalize_group_id(id_src) {
            None => None,
            Some(id) => {
                let from_lists = interface_items(
                    if sec.lists.contains_key("interface"@) {
                        sec.lists["interface"@]
                    } else {
                        Seq::empty()
                    },
                );
                let items = if from_lists.len() > 0 {
                    from_lists
                } else {
                    match opt_of(sec, "interface"@) {
                        Some(o) => pieces_of(o),
                        None => Seq::empty(),
                    }
                };
                Some(
                    GroupView {
                        id: id,
                        name: trimmed_or(opt_of(sec, "name"@), id),
                        enabled: bool_or(spec_parse_bool(opt_of(sec, "enabled"@)), true),
                        interfaces: dedup_first(items),
                        check_enabled: bool_or(spec_parse_bool(opt_of(sec, "check_enabled"@)), true),
                        check_url: trimmed_or(opt_of(sec, "check_url"@), DEFAULT_GROUP_CHECK_URL@),
                        check_interval_seconds: spec_positive_or(
                            opt_of(sec, "check_interval_seconds"@),
                            u64::MAX as nat,
                            DEFAULT_GROUP_CHECK_INTERVAL_SECONDS as nat,
                        ) as u64,
                        check_timeout_seconds: spec_positive_or(
                            opt_of(sec, "check_timeout_seconds"@),
                            u64::MAX as nat,
                            DEFAULT_GROUP_CHECK_TIMEOUT_SECONDS as nat,
                        ) as u64,
                        failure_threshold: spec_positive_or(
                            opt_of(sec, "failure_threshold"@),
                            u32::MAX as nat,
                            DEFAULT_GROUP_FAILURE_THRESHOLD as nat,
                        ) as u32,
                        recovery_threshold: spec_positive_or(
                            opt_of(sec, "recovery_threshold"@),
                            u32::MAX as nat,
                            DEFAULT_GROUP_RECOVERY_THRESHOLD as nat,
                        ) as u32,
                        prefer_primary: bool_or(spec_parse_bool(opt_of(sec, "prefer_primary"@)), true),
                    },
                )
            },
        }
    }
}

pub open spec fn spec_load_groups(secs: Seq<SectionView>) -> Seq<GroupView> {
    secs.filter_map(|s: SectionView| spec_group_entry(s))
}

/// Appends the interface names found in one option value.
fn push_pieces(out: &mut Vec<String>, value: &str)
    ensures
        texts(final(out)@) == texts(old(out)@) + pieces_of(value@),
{
    let v = chars_of(value);
    let parts = split_chars(v.as_slice(), Sep::CommaOrSpace);
    let ghost start = texts(out@);
    let ghost ps = views(parts@);
    for i in 0..parts.len()
        invariant
            ps == views(parts@),
            ps == split_by(value@, Sep::CommaOrSpace),
            texts(out@) == start + trimmed_nonempty(ps.take(i as int)),
    {
        assert(ps.take(i + 1).drop_last() == ps.take(i as int));
        assert(ps.take(i + 1).last() == parts@[i as int]@);
        let t = trimmed(parts[i].as_slice());
        if t.len() > 0 {
            let ghost prev = out@;
            let item = string_from(t.as_slice());
            out.push(item);
            assert(texts(out@) == texts(prev).push(item@));
            assert(trimmed_nonempty(ps.take(i + 1)) == trimmed_nonempty(ps.take(i as int)) + seq![item@]);
        }
    }
    assert(ps.take(parts.len() as int) == ps);
}

/// Whether `name` is among `names`.
fn contains_text(names: &Vec<String>, name: &str) -> (r: bool)
    ensures
        r == texts(names@).contains(name@),
{
    let mut i: usize = 0;
    while i < names.len()
        invariant
            i <= names.len(),
            forall|k: int| 0 <= k < i ==> texts(names@)[k] != name@,
        decreases names.len() - i,
    {
        if str_eq(names[i].as_str(), name) {
            assert(texts(names@)[i as int] == name@);
            return true;
        }
        i += 1;
    }
    false
}

/// Keeps the first occurrence of each name.
fn dedup_names(items: &Vec<String>) -> (r: Vec<String>)
    ensures
        texts(r@) == dedup_first(texts(items@)),
{
    let ghost all = texts(items@);
    let mut r: Vec<String> = Vec::new();
    for i in 0..items.len()
        invariant
            all == texts(items@),
            texts(r@) == dedup_first(all.take(i as int)),
    {
        assert(all.take(i + 1).drop_last() == all.take(i as int));
        assert(all.take(i + 1).last() == items@[i as int]@);
        if !contains_text(&r, items[i].as_str()) {
            let ghost prev = r@;
            let item = items[i].clone();
            r.push(item);
            assert(texts(r@) == texts(prev).push(item@));
        }
    }
    assert(all.take(items.len() as int) == all);
    r
}

fn group_entry(sec: &UciSection) -> (r: Option<InterfaceGroupConfig>)
    requires
        sec.well_formed(),
    ensures
        match r {
            Some(g) => spec_group_entry(sec@) == Some(g@),
            None => spec_group_entry(sec@) is None,
        },
{
    if !section_has_type(sec, "interface_group") {
        return None;
    }
    let id_src = match option_str(sec, "id") {
        Some(x) => x,
        None => sec.name.as_str(),
    };
    let id = match normalize_group_id(id_src) {
        Some(id) => id,
        None => return None,
    };
    let name = match option_str(sec, "name") {
        Some(n) => match trimmed_nonempty_str(n) {
            Some(t) => t,
            None => id.clone(),
        },
        None => id.clone(),
    };
    let key = chars_of("interface");
    let mut items: Vec<String> = Vec::new();
    match sec.list(key.as_slice()) {
        Some(values) => {
            let ghost vs = texts(values@);
            for i in 0..values.len()
                invariant
                    vs == texts(values@),
                    texts(items@) == interface_items(vs.take(i as int)),
            {
                assert(vs.take(i + 1).drop_last() == vs.take(i as int));
                assert(vs.take(i + 1).last() == values@[i as int]@);
                push_pieces(&mut items, values[i].as_str());
            }
            assert(vs.take(values.len() as int) == vs);
        },
        None => {},
    }
    if items.len() == 0 {
        match option_str(sec, "interface") {
            Some(o) => {
                push_pieces(&mut items, o);
                assert(Seq::<Seq<char>>::empty() + pieces_of(o@) == pieces_of(o@));
            },
            None => {},
        }
    }
    let interfaces = dedup_names(&items);
    let check_url = match option_str(sec, "check_url") {
        Some(u) => match trimmed_nonempty_str(u) {
            Some(t) => t,
            None => owned(DEFAULT_GROUP_CHECK_URL),
        },
        None => owned(DEFAULT_GROUP_CHECK_URL),
    };
    let check_interval_seconds = positive_u64(
        option_str(sec, "check_interval_seconds"),
        DEFAULT_GROUP_CHECK_INTERVAL_SECONDS,
    );
    let check_timeout_seconds = positive_u64(
        option_str(sec, "check_timeout_seconds"),
        DEFAULT_GROUP_CHECK_TIMEOUT_SECONDS,
    );
    let failure_threshold = positive_u32(
        option_str(sec, "failure_threshold"),
        DEFAULT_GROUP_FAILURE_THRESHOLD,
    );
    let recovery_threshold = positive_u32(
        option_str(sec, "recovery_threshold"),
        DEFAULT_GROUP_RECOVERY_THRESHOLD,
    );
    let g = InterfaceGroupConfig {
        id,
        name,
        enabled: bool_value(parse_bool(option_str(sec, "enabled")), true),
        interfaces,
        check_enabled: bool_value(parse_bool(option_str(sec, "check_enabled")), true),
        check_url,
        check_interval_seconds,
        check_timeout_seconds,
        failure_threshold,
        recovery_threshold,
        prefer_primary: bool_value(parse_bool(option_str(sec, "prefer_primary")), true),
    };
    assert(g@.interfaces == texts(g.interfaces@));
    Some(g)
}

fn bool_value(v: Option<bool>, d: bool) -> (r: bool)
    ensures
        r == bool_or(v, d),
{
    match v {
        Some(b) => b,
        None => d,
    }
}

fn positive_u32(value: Option<&str>, default: u32) -> (r: u32)
    ensures
        r == spec_positive_or(opt_str_text(value), u32::MAX as nat, default as nat),
{
    match value {
        Some(v) => {
            let c = chars_of(v);
            let t = trimmed(c.as_slice());
            match parse_u64(t.as_slice()) {
                Some(n) => if n > 0 && n <= 4294967295 {
                    n as u32
                } else {
                    default
                },
                None => default,
            }
        },
        None => default,
    }
}

/// The interface groups of the `interface_group` sections, in order; a group's
/// interfaces come from its `interface` list (values split on `,` and
/// whitespace, trimmed, empty ones dropped, repeats dropped), falling back on
/// the joined `interface` option.
pub fn load_interface_group_sections(sections: &Vec<UciSection>) -> (r: Vec<InterfaceGroupConfig>)
    requires
        sections_well_formed(sections@),
    ensures
        group_views(r@) == spec_load_groups(section_views(sections@)),
{
    let ghost secs = section_views(sections@);
    let mut r: Vec<InterfaceGroupConfig> = Vec::new();
    for i in 0..sections.len()
        invariant
            secs == section_views(sections@),
            sections_well_formed(sections@),
            group_views(r@) == spec_load_groups(secs.take(i as int)),
    {
        assert(secs.take(i + 1).drop_last() == secs.take(i as int));
        assert(secs.take(i + 1).last() == sections@[i as int]@);
        assert(sections@[i as int].well_formed());
        match group_entry(&sections[i]) {
            Some(g) => {
                let ghost prev = r@;
                r.push(g);
                assert(group_views(r@) == group_views(prev) + seq![g@]);
            },
            None => {},
        }
    }
    assert(secs.take(sections.len() as int) == secs);
    r
}


// ---------------------------------------------------------------------------
// One entry per ASN
// ---------------------------------------------------------------------------

pub open spec fn asn_key(c: AsnView) -> Option<Seq<char>> {
    spec_normalize_asn(c.asn)
}

/// `i` is the first entry of `input` whose ASN normalizes to `k`.
pub open spec fn first_with_key(input: Seq<AsnView>, k: Seq<char>, i: int) -> bool {
    &&& 0 <= i < input.len()
    &&& asn_key(input[i]) == Some(k)
    &&& forall|j: int| 0 <= j < i ==> asn_key(#[trigger] input[j]) != Some(k)
}

/// The entry kept for an ASN: the normalized ASN, the normalized target
/// (`wan` when blank), the entry's enabled flag.
pub open spec fn dedup_entry(c: AsnView) -> AsnView {
    AsnView {
        asn: asn_key(c).unwrap(),
        target_interface: spec_normalize_interface(Some(c.target_interface), "wan"@),
        enabled: c.enabled,
    }
}

pub open spec fn asn_names(s: Seq<AsnView>) -> Seq<Seq<char>> {
    s.map_values(|a: AsnView| a.asn)
}

/// `out` holds, sorted by ASN, one entry per ASN that some entry of `input`
/// normalizes to, taken from the first such entry.
pub open spec fn dedup_of(input: Seq<AsnView>, out: Seq<AsnView>) -> bool {
    &&& sorted_strict(asn_names(out))
    &&& dedup_entries_first(input, out)
    &&& dedup_covers(input, out)
}

/// Index of the first entry of `input`, at or after `i`, whose ASN normalizes
/// to `k` (`input.len()` if there is none).
pub open spec fn first_key_from(input: Seq<AsnView>, k: Seq<char>, i: int) -> int
    decreases input.len() - i,
{
    if i < 0 || i >= input.len() {
        input.len() as int
    } else if asn_key(input[i]) == Some(k) {
        i
    } else {
        first_key_from(input, k, i + 1)
    }
}

pub proof fn lemma_first_key_from(input: Seq<AsnView>, k: Seq<char>, i: int, w: int)
    requires
        0 <= i <= w,
        first_with_key(input, k, w),
    ensures
        first_key_from(input, k, i) == w,
    decreases w - i,
{
    if i < w {
        assert(asn_key(input[i]) != Some(k));
        lemma_first_key_from(input, k, i + 1, w);
    }
}

/// Every entry of `out` is built from the first entry of `input` with its ASN.
pub open spec fn dedup_entries_first(input: Seq<AsnView>, out: Seq<AsnView>) -> bool {
    forall|j: int|
        #![trigger out[j]]
        0 <= j < out.len() ==> first_key_from(input, out[j].asn, 0) < input.len()
            && asn_key(input[first_key_from(input, out[j].asn, 0)]) == Some(out[j].asn)
            && out[j] == dedup_entry(input[first_key_from(input, out[j].asn, 0)])
}

/// Every ASN of `input` that normalizes has an entry in `out`.
pub open spec fn dedup_covers(input: Seq<AsnView>, out: Seq<AsnView>) -> bool {
    forall|i: int|
        0 <= i < input.len() && (#[trigger] asn_key(input[i])) is Some ==> exists|j: int|
            0 <= j < out.len() && out[j].asn == asn_key(input[i]).unwrap()
}

/// Keeps one entry per ASN, sorted by ASN: entries whose ASN does not
/// normalize are dropped, and of several entries for one ASN the first wins.
pub fn dedup_asn_configs(asns: &mut Vec<AsnConfig>)
    ensures
        dedup_of(asn_views(old(asns)@), asn_views(final(asns)@)),
{
    let mut input: Vec<AsnConfig> = Vec::new();
    std::mem::swap(asns, &mut input);
    let ghost inv = asn_views(input@);
    let mut keys: Vec<Vec<char>> = Vec::new();
    let mut out: Vec<AsnConfig> = Vec::new();
    let ghost mut src: Seq<int> = Seq::empty();
    for i in 0..input.len()
        invariant
            inv == asn_views(input@),
            views(keys@) == asn_names(asn_views(out@)),
            sorted_strict(views(keys@)),
            src.len() == out@.len(),
            forall|j: int|
                0 <= j < out@.len() ==> 0 <= #[trigger] src[j] < i && first_with_key(
                    inv,
                    out@[j]@.asn,
                    src[j],
                ) && out@[j]@ == dedup_entry(inv[src[j]]),
            forall|k: int|
                0 <= k < i && (#[trigger] asn_key(inv[k])) is Some ==> views(keys@).contains(
                    asn_key(inv[k]).unwrap(),
                ),
    {
        let entry = &input[i];
        assert(inv[i as int] == entry@);
        match normalize_asn(entry.asn.as_str()) {
            None => {},
            Some(n) => {
                let kc = chars_of(n.as_str());
                assert(kc@ == asn_key(inv[i as int]).unwrap());
                match search_sorted(&keys, kc.as_slice()) {
                    Ok(pos) => {
                        assert(views(keys@)[pos as int] == kc@);
                    },
                    Err(pos) => {
                        let target = normalize_interface_value(Some(entry.target_interface.as_str()), "wan");
                        let item = AsnConfig { asn: n, target_interface: target, enabled: entry.enabled };
                        let ghost kb = views(keys@);
                        let ghost ob = out@;
                        assert forall|k: int| 0 <= k < i implies asn_key(#[trigger] inv[k]) != Some(kc@) by {
                            if asn_key(inv[k]) == Some(kc@) {
                                assert(views(keys@).contains(kc@));
                            }
                        }
                        proof {
                            assert forall|j: int| 0 <= j < pos implies seq_lt_at(kb, j, kc@) by {
                                assert(kb[j] == keys@[j]@);
                            }
                            assert forall|j: int| pos <= j < kb.len() implies seq_gt_at(kb, j, kc@) by {
                                assert(kb[j] == keys@[j]@);
                            }
                            lemma_insert_sorted(kb, pos as int, kc@);
                        }
                        keys.insert(pos, kc);
                        out.insert(pos, item);
                        proof {
                            src = src.insert(pos as int, i as int);
                            assert(views(keys@) =~= kb.insert(pos as int, kc@));
                            assert(asn_views(out@) =~= asn_views(ob).insert(pos as int, item@));
                            assert(asn_names(asn_views(out@)) =~= asn_names(asn_views(ob)).insert(
                                pos as int,
                                kc@,
                            ));
                            assert forall|j: int| 0 <= j < out@.len() implies 0 <= #[trigger] src[j]
                                < i + 1 && first_with_key(inv, out@[j]@.asn, src[j]) && out@[j]@
                                == dedup_entry(inv[src[j]]) by {
                                if j < pos {
                                    assert(out@[j] == ob[j]);
                                } else if j > pos {
                                    assert(out@[j] == ob[j - 1]);
                                }
                            }
                            assert(views(keys@)[pos as int] == kc@);
                            assert forall|k: int|
                                0 <= k < i + 1 && (#[trigger] asn_key(inv[k])) is Some implies views(
                                keys@,
                            ).contains(asn_key(inv[k]).unwrap()) by {
                                let x = asn_key(inv[k]).unwrap();
                                if k < i {
                                    assert(kb.contains(x));
                                    assert(kb.to_set().contains(x));
                                    assert(views(keys@).to_set().contains(x));
                                }
                            }
                        }
                    },
                }
                assert(views(keys@).contains(asn_key(inv[i as int]).unwrap()));
            },
        }
    }
    assert forall|j: int|
        #![trigger asn_views(out@)[j]]
        0 <= j < asn_views(out@).len() implies first_key_from(inv, asn_views(out@)[j].asn, 0) < inv.len()
            && asn_key(inv[first_key_from(inv, asn_views(out@)[j].asn, 0)]) == Some(asn_views(out@)[j].asn)
            && asn_views(out@)[j] == dedup_entry(inv[first_key_from(inv, asn_views(out@)[j].asn, 0)]) by {
        let w = src[j];
        assert(asn_views(out@)[j] == out@[j]@);
        assert(first_with_key(inv, out@[j]@.asn, w));
        lemma_first_key_from(inv, out@[j]@.asn, 0, w);
    }
    assert forall|i: int| 0 <= i < inv.len() && (#[trigger] asn_key(inv[i])) is Some implies exists|j: int|
        0 <= j < asn_views(out@).len() && asn_views(out@)[j].asn == asn_key(inv[i]).unwrap() by {
        let k = asn_key(inv[i]).unwrap();
        assert(views(keys@).contains(k));
        let j = choose|j: int| 0 <= j < views(keys@).len() && views(keys@)[j] == k;
        assert(asn_names(asn_views(out@))[j] == asn_views(out@)[j].asn);
        assert(asn_views(out@)[j].asn == k);
    }
    *asns = out;
}

pub open spec fn seq_lt_at(s: Seq<Seq<char>>, j: int, k: Seq<char>) -> bool {
    crate::text::seq_lt(s[j], k)
}

pub open spec fn seq_gt_at(s: Seq<Seq<char>>, j: int, k: Seq<char>) -> bool {
    crate::text::seq_lt(k, s[j])
}


// ---------------------------------------------------------------------------
// The whole configuration
// ---------------------------------------------------------------------------

/// The router's configuration.
pub struct Config {
    pub enabled: bool,
    pub asns: Vec<AsnConfig>,
    pub custom_routes: Vec<CustomRouteConfig>,
    pub interface_groups: Vec<InterfaceGroupConfig>,
    pub lan_interface: String,
    pub default_target_interface: String,
    pub auto_apply_routes: bool,
    pub periodic_sync_enabled: bool,
    pub periodic_sync_mode: String,
    pub periodic_sync_interval_minutes: u64,
    pub route_policy_enabled: bool,
    pub proxy_enabled: bool,
    pub proxy_type: String,
    pub proxy_url: Option<String>,
    pub db_path: String,
}

/// What the configuration is read from: the non-empty values of the
/// `soya-asn-router.main.*` UCI options, the environment overrides, and the
/// output of `uci show soya-asn-router`.
pub struct ConfigSources {
    pub enabled: Option<String>,
    pub default_interface: Option<String>,
    pub lan_interface: Option<String>,
    pub auto_apply_routes: Option<String>,
    pub periodic_sync_enabled: Option<String>,
    pub periodic_sync_mode: Option<String>,
    pub periodic_sync_interval_minutes: Option<String>,
    pub route_policy_enabled: Option<String>,
    pub main_asn: Option<String>,
    pub proxy_enabled: Option<String>,
    pub proxy_type: Option<String>,
    pub proxy_url: Option<String>,
    pub db_path: Option<String>,
    pub uci_show: Option<String>,
    /// `SOYA_ASN_ROUTER_ROUTE_POLICY_ENABLED`.
    pub env_route_policy_enabled: Option<String>,
    /// `SOYA_ASN_ROUTER_ASNS`.
    pub env_asns: Option<String>,
    /// `SOYA_ASN_ROUTER_DB_PATH`.
    pub env_db_path: Option<String>,
}

pub open spec fn text_or(v: Option<String>, d: Seq<char>) -> Seq<char> {
    match v {
        Some(x) => x@,
        None => d,
    }
}

/// ASN entries from a list of words: those that normalize, routed to `d`, enabled.
pub open spec fn words_asns(words: Seq<Seq<char>>, d: Seq<char>) -> Seq<AsnView> {
    words.filter_map(
        |w: Seq<char>|
            match spec_normalize_asn(w) {
                Some(n) => Some(AsnView { asn: n, target_interface: d, enabled: true }),
                None => None,
            },
    )
}

/// The sections of the package, as `uci show` printed them.
pub open spec fn config_sections(src: ConfigSources) -> Seq<SectionView> {
    match src.uci_show {
        Some(o) => spec_parse_uci("soya-asn-router"@, o@),
        None => Seq::empty(),
    }
}

pub open spec fn config_default_target(src: ConfigSources) -> Seq<char> {
    text_or(src.default_interface, "wan"@)
}

/// The ASN entries before they are made unique: the environment list when set,
/// else the `asn` sections, else the whitespace-separated `main.asn` option.
pub open spec fn config_asn_entries(src: ConfigSources) -> Seq<AsnView> {
    let d = config_default_target(src);
    match src.env_asns {
        Some(v) => words_asns(split_by(v@, Sep::CommaOrSpace), d),
        None => {
            let l = spec_load_asns(config_sections(src), d);
            if l.len() > 0 {
                l
            } else {
                words_asns(split_by(text_or(src.main_asn, Seq::empty()), Sep::White), d)
            }
        },
    }
}

fn text_or_default(v: &Option<String>, d: &str) -> (r: String)
    ensures
        r@ == text_or(*v, d@),
{
    match v {
        Some(x) => x.clone(),
        None => owned(d),
    }
}

fn opt_as_str(v: &Option<String>) -> (r: Option<&str>)
    ensures
        opt_str_text(r) == opt_text(*v),
{
    match v {
        Some(x) => Some(x.as_str()),
        None => None,
    }
}

fn asns_from_words(text: &str, sep: Sep, d: &str) -> (r: Vec<AsnConfig>)
    ensures
        asn_views(r@) == words_asns(split_by(text@, sep), d@),
{
    let v = chars_of(text);
    let words = split_chars(v.as_slice(), sep);
    let ghost ws = views(words@);
    let mut r: Vec<AsnConfig> = Vec::new();
    for i in 0..words.len()
        invariant
            ws == views(words@),
            ws == split_by(text@, sep),
            asn_views(r@) == words_asns(ws.take(i as int), d@),
    {
        assert(ws.take(i + 1).drop_last() == ws.take(i as int));
        assert(ws.take(i + 1).last() == words@[i as int]@);
        let w = string_from(words[i].as_slice());
        match normalize_asn(w.as_str()) {
            Some(n) => {
                let ghost prev = r@;
                let a = AsnConfig { asn: n, target_interface: owned(d), enabled: true };
                r.push(a);
                assert(asn_views(r@) == asn_views(prev) + seq![a@]);
            },
            None => {},
        }
    }
    assert(ws.take(words.len() as int) == ws);
    r
}

impl Config {
    /// The configuration that the given UCI values and environment overrides describe.
    pub fn from_sources(src: &ConfigSources) -> (r: Config)
        ensures
            r.enabled == bool_or(spec_parse_bool(opt_text(src.enabled)), false),
            r.default_target_interface@ == config_default_target(*src),
            r.lan_interface@ == text_or(src.lan_interface, "lan"@),
            r.auto_apply_routes == bool_or(spec_parse_bool(opt_text(src.auto_apply_routes)), true),
            r.periodic_sync_enabled == bool_or(spec_parse_bool(opt_text(src.periodic_sync_enabled)), false),
            r.periodic_sync_mode@ == (if opt_text(src.periodic_sync_mode) matches Some(v) && trim(v)
                == missing_word() {
                "missing"@
            } else {
                "all"@
            }),
            r.periodic_sync_interval_minutes == spec_positive_or(
                opt_text(src.periodic_sync_interval_minutes),
                u64::MAX as nat,
                1440,
            ),
            r.route_policy_enabled == (match spec_parse_bool(opt_text(src.env_route_policy_enabled)) {
                Some(b) => b,
                None => bool_or(spec_parse_bool(opt_text(src.route_policy_enabled)), true),
            }),
            dedup_of(config_asn_entries(*src), asn_views(r.asns@)),
            route_views(r.custom_routes@) == spec_load_routes(config_sections(*src), config_default_target(*src)),
            group_views(r.interface_groups@) == spec_load_groups(config_sections(*src)),
            r.proxy_enabled == bool_or(spec_parse_bool(opt_text(src.proxy_enabled)), false),
            r.proxy_type@ == text_or(src.proxy_type, "http"@),
            opt_text(r.proxy_url) == (match src.proxy_url {
                Some(u) => if trim(u@).len() > 0 {
                    Some(u@)
                } else {
                    None
                },
                None => None,
            }),
            r.db_path@ == (match (if src.env_db_path is Some {
                src.env_db_path
            } else {
                src.db_path
            }) {
                Some(p) => if trim(p@).len() > 0 {
                    p@
                } else {
                    DEFAULT_DB_PATH@
                },
                None => DEFAULT_DB_PATH@,
            }),
    {
        let enabled = bool_value(parse_bool(opt_as_str(&src.enabled)), false);
        let default_target_interface = text_or_default(&src.default_interface, "wan");
        let lan_interface = text_or_default(&src.lan_interface, "lan");
        let auto_apply_routes = bool_value(parse_bool(opt_as_str(&src.auto_apply_routes)), true);
        let periodic_sync_enabled = bool_value(parse_bool(opt_as_str(&src.periodic_sync_enabled)), false);
        let periodic_sync_mode = normalize_sync_mode(opt_as_str(&src.periodic_sync_mode));
        let periodic_sync_interval_minutes = positive_u64(
            opt_as_str(&src.periodic_sync_interval_minutes),
            1440,
        );
        let route_policy_enabled = match parse_bool(opt_as_str(&src.env_route_policy_enabled)) {
            Some(b) => b,
            None => bool_value(parse_bool(opt_as_str(&src.route_policy_enabled)), true),
        };
        let sections = match &src.uci_show {
            Some(o) => parse_uci_sections("soya-asn-router", o.as_str()),
            None => Vec::new(),
        };
        assert(section_views(sections@) == config_sections(*src));
        let mut asns = match &src.env_asns {
            Some(v) => asns_from_words(v.as_str(), Sep::CommaOrSpace, default_target_interface.as_str()),
            None => {
                let l = load_asn_sections(&sections, default_target_interface.as_str());
                if l.len() > 0 {
                    l
                } else {
                    match &src.main_asn {
                        Some(m) => asns_from_words(m.as_str(), Sep::White, default_target_interface.as_str()),
                        None => asns_from_words("", Sep::White, default_target_interface.as_str()),
                    }
                }
            },
        };
        proof {
            if src.env_asns is None && src.main_asn is None {
                reveal_strlit("");
                assert(text_or(src.main_asn, Seq::empty()) == ""@);
            }
        }
        assert(asn_views(asns@) == config_asn_entries(*src));
        dedup_asn_configs(&mut asns);
        let custom_routes = load_custom_route_sections(&sections, default_target_interface.as_str());
        let interface_groups = load_interface_group_sections(&sections);
        let proxy_enabled = bool_value(parse_bool(opt_as_str(&src.proxy_enabled)), false);
        let proxy_type = text_or_default(&src.proxy_type, "http");
        let proxy_url = match &src.proxy_url {
            Some(u) => match trimmed_nonempty_str(u.as_str()) {
                Some(_) => Some(u.clone()),
                None => None,
            },
            None => None,
        };
        let chosen = if src.env_db_path.is_some() {
            &src.env_db_path
        } else {
            &src.db_path
        };
        let db_path = match chosen {
            Some(p) => match trimmed_nonempty_str(p.as_str()) {
                Some(_) => p.clone(),
                None => owned(DEFAULT_DB_PATH),
            },
            None => owned(DEFAULT_DB_PATH),
        };
        Config {
            enabled,
            asns,
            custom_routes,
            interface_groups,
            lan_interface,
            default_target_interface,
            auto_apply_routes,
            periodic_sync_enabled,
            periodic_sync_mode,
            periodic_sync_interval_minutes,
            route_policy_enabled,
            proxy_enabled,
            proxy_type,
            proxy_url,
            db_path,
        }
    }
}


/// Index of the first enabled group at or after `i` with id `id`.
pub open spec fn group_index_from(groups: Seq<InterfaceGroupConfig>, id: Seq<char>, i: int) -> Option<int>
    decreases groups.len() - i,
{
    if i < 0 || i >= groups.len() {
        None
    } else if groups[i].id@ == id && groups[i].enabled {
        Some(i)
    } else {
        group_index_from(groups, id, i + 1)
    }
}

pub open spec fn group_index(groups: Seq<InterfaceGroupConfig>, id: Seq<char>) -> Option<int> {
    group_index_from(groups, id, 0)
}

pub proof fn lemma_group_index_from(groups: Seq<InterfaceGroupConfig>, id: Seq<char>, i: int)
    requires
        0 <= i <= groups.len(),
    ensures
        group_index_from(groups, id, i) matches Some(k) ==> i <= k < groups.len() && groups[k].id@ == id
            && groups[k].enabled,
    decreases groups.len() - i,
{
    if i < groups.len() && !(groups[i].id@ == id && groups[i].enabled) {
        lemma_group_index_from(groups, id, i + 1);
    }
}

pub open spec fn asn_ref_views(v: Seq<&AsnConfig>) -> Seq<AsnView> {
    v.map_values(|a: &AsnConfig| (*a)@)
}

pub open spec fn route_ref_views(v: Seq<&CustomRouteConfig>) -> Seq<RouteView> {
    v.map_values(|a: &CustomRouteConfig| (*a)@)
}

pub open spec fn group_ref_views(v: Seq<&InterfaceGroupConfig>) -> Seq<GroupView> {
    v.map_values(|a: &InterfaceGroupConfig| (*a)@)
}

broadcast use vstd::seq::Seq::lemma_filter_push;

impl Config {
    /// The enabled ASN entries, in order.
    pub fn active_asns(&self) -> (r: Vec<&AsnConfig>)
        ensures
            asn_ref_views(r@) == asn_views(self.asns@).filter(|a: AsnView| a.enabled),
    {
        let ghost all = asn_views(self.asns@);
        let mut r: Vec<&AsnConfig> = Vec::new();
        for i in 0..self.asns.len()
            invariant
                all == asn_views(self.asns@),
                asn_ref_views(r@) == all.take(i as int).filter(|a: AsnView| a.enabled),
        {
            assert(all.take(i + 1) == all.take(i as int).push(self.asns@[i as int]@));
            let ghost prev = r@;
            if self.asns[i].enabled {
                r.push(&self.asns[i]);
                assert(asn_ref_views(r@) == asn_ref_views(prev).push(self.asns@[i as int]@));
            }
        }
        assert(all.take(self.asns.len() as int) == all);
        r
    }

    /// The enabled custom routes, in order.
    pub fn active_custom_routes(&self) -> (r: Vec<&CustomRouteConfig>)
        ensures
            route_ref_views(r@) == route_views(self.custom_routes@).filter(|a: RouteView| a.enabled),
    {
        let ghost all = route_views(self.custom_routes@);
        let mut r: Vec<&CustomRouteConfig> = Vec::new();
        for i in 0..self.custom_routes.len()
            invariant
                all == route_views(self.custom_routes@),
                route_ref_views(r@) == all.take(i as int).filter(|a: RouteView| a.enabled),
        {
            assert(all.take(i + 1) == all.take(i as int).push(self.custom_routes@[i as int]@));
            let ghost prev = r@;
            if self.custom_routes[i].enabled {
                r.push(&self.custom_routes[i]);
                assert(route_ref_views(r@) == route_ref_views(prev).push(self.custom_routes@[i as int]@));
            }
        }
        assert(all.take(self.custom_routes.len() as int) == all);
        r
    }

    /// The enabled interface groups that have interfaces, in order.
    pub fn active_interface_groups(&self) -> (r: Vec<&InterfaceGroupConfig>)
        ensures
            group_ref_views(r@) == group_views(self.interface_groups@).filter(
                |g: GroupView| g.enabled && g.interfaces.len() > 0,
            ),
    {
        let ghost all = group_views(self.interface_groups@);
        let mut r: Vec<&InterfaceGroupConfig> = Vec::new();
        for i in 0..self.interface_groups.len()
            invariant
                all == group_views(self.interface_groups@),
                group_ref_views(r@) == all.take(i as int).filter(
                    |g: GroupView| g.enabled && g.interfaces.len() > 0,
                ),
        {
            assert(all.take(i + 1) == all.take(i as int).push(self.interface_groups@[i as int]@));
            let ghost prev = r@;
            let g = &self.interface_groups[i];
            assert(g@.interfaces.len() == g.interfaces@.len());
            if g.enabled && g.interfaces.len() > 0 {
                r.push(g);
                assert(group_ref_views(r@) == group_ref_views(prev).push(g@));
            }
        }
        assert(all.take(self.interface_groups.len() as int) == all);
        r
    }

    /// The first enabled interface group with id `id`.
    pub fn find_interface_group(&self, id: &str) -> (r: Option<&InterfaceGroupConfig>)
        ensures
            match r {
                Some(g) => group_index(self.interface_groups@, id@) matches Some(k)
                    && self.interface_groups@[k] == *g,
                None => group_index(self.interface_groups@, id@) is None,
            },
    {
        let mut i: usize = 0;
        while i < self.interface_groups.len()
            invariant
                i <= self.interface_groups.len(),
                group_index_from(self.interface_groups@, id@, i as int) == group_index(
                    self.interface_groups@,
                    id@,
                ),
            decreases self.interface_groups.len() - i,
        {
            let g = &self.interface_groups[i];
            if str_eq(g.id.as_str(), id) && g.enabled {
                return Some(g);
            }
            i += 1;
        }
        None
    }
}

} // verus!
