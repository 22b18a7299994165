//! The route policy: which prefixes are routed through which interface, and
//! the nftables file and shell script that put it in place.
//!
//! The plan is computed from the configuration, the network interfaces that
//! the system reports, the active member recorded for each interface group
//! and the prefixes stored for each ASN.
use vstd::prelude::*;

use crate::config::{
    group_index, opt_text, spec_group_id_from_target, texts, AsnView, Config,
    InterfaceGroupConfig, RouteView, asn_views, route_views, asn_ref_views, route_ref_views,
};
use crate::constants::{MARK_BASE, MAX_POLICY_GROUPS, RULE_PREF_BASE, TABLE_ID_BASE};
use crate::ipv4::{is_valid_ipv4_prefix, spec_is_valid_ipv4_prefix};
use crate::strset::{insert_sorted, lemma_push_to_set, lemma_sorted_distinct, lemma_sorted_set_len, search_sorted,
    sorted_strict};
use crate::text::{chars_of, compare_chars, lemma_lt_irreflexive, lemma_lt_total, lemma_lt_transitive, owned,
    push_decimal, push_str, seq_lt, str_eq, string_from, trim, trim_string, views, dec, Order3};

verus! {

broadcast use vstd::seq::Seq::lemma_filter_push;

// ---------------------------------------------------------------------------
// Network interfaces
// ---------------------------------------------------------------------------

/// A route of a network interface.
pub struct NetworkRoute {
    pub target: Option<String>,
    pub mask: Option<u8>,
    pub nexthop: Option<String>,
}

pub struct NetRouteView {
    pub target: Option<Seq<char>>,
    pub mask: Option<u8>,
    pub nexthop: Option<Seq<char>>,
}

impl View for NetworkRoute {
    type V = NetRouteView;

    open spec fn view(&self) -> NetRouteView {
        NetRouteView { target: opt_text(self.target), mask: self.mask, nexthop: opt_text(self.nexthop) }
    }
}

/// A logical network interface as the system reports it.
pub struct NetworkInterface {
    pub interface: String,
    pub up: bool,
    pub device: Option<String>,
    pub l3_device: Option<String>,
    pub route: Vec<NetworkRoute>,
}

pub struct InterfaceView {
    pub name: Seq<char>,
    pub up: bool,
    pub device: Option<Seq<char>>,
    pub l3_device: Option<Seq<char>>,
    pub routes: Seq<NetRouteView>,
}

impl View for NetworkInterface {
    type V = InterfaceView;

    open spec fn view(&self) -> InterfaceView {
        InterfaceView {
            name: self.interface@,
            up: self.up,
            device: opt_text(self.device),
            l3_device: opt_text(self.l3_device),
            routes: self.route@.map_values(|r: NetworkRoute| r@),
        }
    }
}

pub open spec fn interface_views(v: Seq<NetworkInterface>) -> Seq<InterfaceView> {
    v.map_values(|i: NetworkInterface| i@)
}

/// The device of an interface: the L3 device if there is one, else the
/// device, trimmed; none if that is blank.
pub open spec fn spec_device_name(i: InterfaceView) -> Option<Seq<char>> {
    let d = match i.l3_device {
        Some(x) => Some(x),
        None => i.device,
    };
    match d {
        Some(x) => if trim(x).len() > 0 {
            Some(trim(x))
        } else {
            None
        },
        None => None,
    }
}

/// Whether a route is the IPv4 default route.
pub open spec fn is_default_route(r: NetRouteView) -> bool {
    r.mask == Some(0u8) && r.target == Some("0.0.0.0"@)
}

/// Index of the first IPv4 default route among the routes from `i` on.
pub open spec fn default_route_from(routes: Seq<NetRouteView>, i: int) -> Option<int>
    decreases routes.len() - i,
{
    if i < 0 || i >= routes.len() {
        None
    } else if is_default_route(routes[i]) {
        Some(i)
    } else {
        default_route_from(routes, i + 1)
    }
}

/// Copy of a route.
pub fn copy_route(r: &NetworkRoute) -> (c: NetworkRoute)
    ensures
        c@ == r@,
{
    NetworkRoute {
        target: match &r.target {
            Some(t) => Some(t.clone()),
            None => None,
        },
        mask: r.mask,
        nexthop: match &r.nexthop {
            Some(t) => Some(t.clone()),
            None => None,
        },
    }
}

impl NetworkInterface {
    /// The device of the interface: the L3 device if there is one, else the
    /// device, trimmed; none if that is blank.
    pub fn device_name(&self) -> (r: Option<String>)
        ensures
            opt_text(r) == spec_device_name(self@),
    {
        let d = match &self.l3_device {
            Some(x) => Some(x),
            None => match &self.device {
                Some(x) => Some(x),
                None => None,
            },
        };
        match d {
            Some(x) => {
                let t = trim_string(x.as_str());
                if t.as_str().is_empty() {
                    None
                } else {
                    Some(t)
                }
            },
            None => None,
        }
    }

    /// The first IPv4 default route of the interface.
    pub fn default_ipv4_route(&self) -> (r: Option<&NetworkRoute>)
        ensures
            r matches Some(x) ==> default_route_from(self@.routes, 0) matches Some(j) && x@ == self@.routes[j],
            r is None ==> default_route_from(self@.routes, 0) is None,
    {
        let ghost rs = self@.routes;
        let mut i: usize = 0;
        while i < self.route.len()
            invariant
                rs == self@.routes,
                i <= self.route.len(),
                default_route_from(rs, 0) == default_route_from(rs, i as int),
            decreases self.route.len() - i,
        {
            let r = &self.route[i];
            assert(rs[i as int] == r@);
            let is_zero = match r.mask {
                Some(m) => m == 0,
                None => false,
            };
            let is_any = match &r.target {
                Some(t) => str_eq(t.as_str(), "0.0.0.0"),
                None => false,
            };
            if is_zero && is_any {
                return Some(r);
            }
            i += 1;
        }
        None
    }
}

/// Index of the first interface named `name` from `i` on.
pub open spec fn named_from(ifaces: Seq<InterfaceView>, name: Seq<char>, i: int) -> Option<int>
    decreases ifaces.len() - i,
{
    if i < 0 || i >= ifaces.len() {
        None
    } else if ifaces[i].name == name {
        Some(i)
    } else {
        named_from(ifaces, name, i + 1)
    }
}

/// Index of the first interface whose device is `name` from `i` on.
pub open spec fn with_device_from(ifaces: Seq<InterfaceView>, name: Seq<char>, i: int) -> Option<int>
    decreases ifaces.len() - i,
{
    if i < 0 || i >= ifaces.len() {
        None
    } else if spec_device_name(ifaces[i]) == Some(name) {
        Some(i)
    } else {
        with_device_from(ifaces, name, i + 1)
    }
}

/// The interface that `name` designates: the first one with that name,
/// else the first one with that device.
pub open spec fn spec_find_interface(ifaces: Seq<InterfaceView>, name: Seq<char>) -> Option<int> {
    match named_from(ifaces, name, 0) {
        Some(i) => Some(i),
        None => with_device_from(ifaces, name, 0),
    }
}

/// The interface that `name` designates: the first one with that name,
/// else the first one with that device.
pub fn find_interface<'a>(interfaces: &'a Vec<NetworkInterface>, name: &str) -> (r: Option<&'a NetworkInterface>)
    ensures
        r matches Some(x) ==> spec_find_interface(interface_views(interfaces@), name@) matches Some(j)
            && x@ == interface_views(interfaces@)[j],
        r is None ==> spec_find_interface(interface_views(interfaces@), name@) is None,
{
    match find_index(interfaces, name) {
        Some(j) => Some(&interfaces[j]),
        None => None,
    }
}

/// Position of the interface that `name` designates.
pub fn find_index(interfaces: &Vec<NetworkInterface>, name: &str) -> (r: Option<usize>)
    ensures
        r matches Some(j) ==> j < interfaces.len() && spec_find_interface(interface_views(interfaces@), name@)
            == Some(j as int),
        r is None ==> spec_find_interface(interface_views(interfaces@), name@) is None,
{
    let ghost vs = interface_views(interfaces@);
    let mut i: usize = 0;
    while i < interfaces.len()
        invariant
            vs == interface_views(interfaces@),
            i <= interfaces.len(),
            named_from(vs, name@, 0) == named_from(vs, name@, i as int),
        decreases interfaces.len() - i,
    {
        assert(vs[i as int] == interfaces@[i as int]@);
        if str_eq(interfaces[i].interface.as_str(), name) {
            return Some(i);
        }
        i += 1;
    }
    let mut k: usize = 0;
    while k < interfaces.len()
        invariant
            vs == interface_views(interfaces@),
            k <= interfaces.len(),
            named_from(vs, name@, 0) is None,
            with_device_from(vs, name@, 0) == with_device_from(vs, name@, k as int),
        decreases interfaces.len() - k,
    {
        assert(vs[k as int] == interfaces@[k as int]@);
        match interfaces[k].device_name() {
            Some(d) => {
                if str_eq(d.as_str(), name) {
                    return Some(k);
                }
            },
            None => {},
        }
        k += 1;
    }
    None
}

// ---------------------------------------------------------------------------
// Sorting interfaces by name
// ---------------------------------------------------------------------------

/// Interfaces in increasing order of name (equal names allowed).
pub open spec fn sorted_by_name(s: Seq<InterfaceView>) -> bool {
    forall|i: int, j: int| 0 <= i < j < s.len() ==> !seq_lt(#[trigger] s[j].name, #[trigger] s[i].name)
}

/// The interfaces named `n`, in order.
pub open spec fn with_name(s: Seq<InterfaceView>, n: Seq<char>) -> Seq<InterfaceView> {
    s.filter(|x: InterfaceView| x.name == n)
}

/// A sequence none of whose elements meets a predicate filters to nothing.
pub proof fn lemma_filter_none<A>(s: Seq<A>, f: spec_fn(A) -> bool)
    requires
        forall|i: int| 0 <= i < s.len() ==> !f(#[trigger] s[i]),
    ensures
        s.filter(f) == Seq::<A>::empty(),
    decreases s.len(),
{
    reveal_with_fuel(Seq::filter, 1);
    if s.len() > 0 {
        let pre = s.drop_last();
        assert forall|i: int| 0 <= i < pre.len() implies !f(#[trigger] pre[i]) by {
            assert(pre[i] == s[i]);
        }
        lemma_filter_none(pre, f);
    }
}

/// Inserting `x` where every element before it has a name not above its own
/// and every element from there on a name above it adds `x` after the other
/// elements of its name, and nowhere else.
pub proof fn lemma_insert_by_name(s: Seq<InterfaceView>, p: int, x: InterfaceView, n: Seq<char>)
    requires
        0 <= p <= s.len(),
        forall|j: int| p <= j < s.len() ==> seq_lt(x.name, #[trigger] s[j].name),
    ensures
        with_name(s.insert(p, x), n) == if x.name == n {
            with_name(s, n).push(x)
        } else {
            with_name(s, n)
        },
{
    let f = |y: InterfaceView| y.name == n;
    let a = s.take(p);
    let b = s.skip(p);
    assert(s == a + b);
    assert(s.insert(p, x) == a + seq![x] + b);
    Seq::filter_distributes_over_add(a, b, f);
    Seq::filter_distributes_over_add(a + seq![x], b, f);
    Seq::filter_distributes_over_add(a, seq![x], f);
    reveal_with_fuel(Seq::filter, 2);
    if x.name == n {
        assert forall|j: int| 0 <= j < b.len() implies !f(#[trigger] b[j]) by {
            assert(b[j] == s[p + j]);
            lemma_lt_irreflexive(n);
        }
        lemma_filter_none(b, f);
        assert(seq![x].filter(f) == seq![x]) by {
            assert(seq![x].drop_last() == Seq::<InterfaceView>::empty());
        }
        assert(with_name(s, n) == a.filter(f));
    } else {
        assert(seq![x].filter(f) == Seq::<InterfaceView>::empty()) by {
            assert(seq![x].drop_last() == Seq::<InterfaceView>::empty());
        }
    }
}

/// The interfaces in increasing order of name; those with equal names keep
/// their order.
pub fn sort_interfaces_by_name(interfaces: Vec<NetworkInterface>) -> (r: Vec<NetworkInterface>)
    ensures
        sorted_by_name(interface_views(r@)),
        forall|n: Seq<char>| #[trigger] with_name(interface_views(r@), n) == with_name(interface_views(interfaces@), n),
{
    let ghost input = interface_views(interfaces@);
    let total = interfaces.len();
    let mut rest = interfaces;
    let mut out: Vec<NetworkInterface> = Vec::new();
    let mut taken: usize = 0;
    proof {
        assert forall|n: Seq<char>| #[trigger] with_name(interface_views(out@), n) == with_name(input.take(0), n) by {
            assert(interface_views(out@) == Seq::<InterfaceView>::empty());
            assert(input.take(0) == Seq::<InterfaceView>::empty());
        }
    }
    while rest.len() > 0
        invariant
            input.len() == total,
            taken + rest.len() == input.len(),
            forall|j: int| 0 <= j < rest.len() ==> (#[trigger] rest@[j])@ == input[taken + j],
            sorted_by_name(interface_views(out@)),
            forall|n: Seq<char>| #[trigger] with_name(interface_views(out@), n) == with_name(input.take(taken as int), n),
        decreases rest.len(),
    {
        let ghost before = rest@;
        let x = rest.remove(0);
        assert(x == before[0]);
        assert forall|j: int| 0 <= j < rest.len() implies (#[trigger] rest@[j])@ == input[taken + 1 + j] by {
            assert(rest@[j] == before[j + 1]);
        }
        assert(x@ == input[taken as int]);
        let xc = chars_of(x.interface.as_str());
        let ghost ov = interface_views(out@);
        let mut p: usize = 0;
        while p < out.len()
            invariant
                ov == interface_views(out@),
                p <= out.len(),
                xc@ == x@.name,
                forall|j: int| 0 <= j < p ==> !seq_lt(x@.name, (#[trigger] ov[j]).name),
            ensures
                p <= out.len(),
                forall|j: int| 0 <= j < p ==> !seq_lt(x@.name, (#[trigger] ov[j]).name),
                p < out.len() ==> seq_lt(x@.name, ov[p as int].name),
            decreases out.len() - p,
        {
            let oc = chars_of(out[p].interface.as_str());
            assert(ov[p as int] == out@[p as int]@);
            if compare_chars(xc.as_slice(), oc.as_slice()) == Order3::Less {
                break;
            }
            p += 1;
        }
        assert(p < out.len() ==> seq_lt(x@.name, ov[p as int].name));
        proof {
            assert forall|j: int| p <= j < ov.len() implies seq_lt(x@.name, #[trigger] ov[j].name) by {
                if j > p {
                    lemma_lt_total(ov[p as int].name, ov[j].name);
                    if ov[p as int].name != ov[j].name {
                        lemma_lt_transitive(x@.name, ov[p as int].name, ov[j].name);
                    }
                }
            }
        }
        let ghost xv = x@;
        out.insert(p, x);
        proof {
            assert(interface_views(out@) == ov.insert(p as int, xv));
            let nv = ov.insert(p as int, xv);
            assert forall|i: int, j: int| 0 <= i < j < nv.len() implies !seq_lt(
                #[trigger] nv[j].name,
                #[trigger] nv[i].name,
            ) by {
                if j < p {
                    assert(nv[i] == ov[i] && nv[j] == ov[j]);
                } else if j == p {
                    assert(nv[i] == ov[i]);
                    lemma_lt_total(xv.name, ov[i].name);
                } else if i < p {
                    assert(nv[i] == ov[i] && nv[j] == ov[j - 1]);
                    lemma_lt_total(xv.name, ov[i].name);
                    lemma_lt_total(ov[j - 1].name, ov[i].name);
                    if seq_lt(ov[j - 1].name, ov[i].name) {
                        lemma_lt_transitive(xv.name, ov[j - 1].name, ov[i].name);
                    }
                } else if i == p {
                    assert(nv[j] == ov[j - 1]);
                    lemma_lt_total(ov[j - 1].name, xv.name);
                } else {
                    assert(nv[i] == ov[i - 1] && nv[j] == ov[j - 1]);
                }
            }
            assert(input.take(taken + 1) == input.take(taken as int).push(xv));
            assert forall|n: Seq<char>| #[trigger] with_name(nv, n) == with_name(input.take(taken + 1), n) by {
                lemma_insert_by_name(ov, p as int, xv, n);
                Seq::filter_distributes_over_add(input.take(taken as int), seq![xv], |y: InterfaceView| y.name == n);
                reveal_with_fuel(Seq::filter, 2);
                assert(input.take(taken as int).push(xv) == input.take(taken as int) + seq![xv]);
                assert(seq![xv].drop_last() == Seq::<InterfaceView>::empty());
            }
        }
        taken = taken + 1;
    }
    assert(input.take(input.len() as int) == input);
    out
}

// ---------------------------------------------------------------------------
// Resolving targets
// ---------------------------------------------------------------------------

/// Why a route policy could not be planned.
pub enum PolicyError {
    /// The LAN interface was not found.
    LanNotFound(String),
    /// The LAN interface has no L3 device.
    LanNoDevice(String),
    /// A target names an interface group that is not configured or not enabled.
    GroupNotFound(String),
    /// An interface group has no interface to route through.
    GroupNoActive(String),
    /// More target interfaces than the policy can hold.
    TooManyTargets(usize),
    /// A target interface was not found.
    TargetNotFound(String),
    /// A target interface has no device.
    TargetNoDevice(String),
}

/// The same, with texts as character sequences.
pub enum PolicyFailure {
    LanNotFound(Seq<char>),
    LanNoDevice(Seq<char>),
    GroupNotFound(Seq<char>),
    GroupNoActive(Seq<char>),
    TooManyTargets(nat),
    TargetNotFound(Seq<char>),
    TargetNoDevice(Seq<char>),
}

impl View for PolicyError {
    type V = PolicyFailure;

    open spec fn view(&self) -> PolicyFailure {
        match self {
            PolicyError::LanNotFound(s) => PolicyFailure::LanNotFound(s@),
            PolicyError::LanNoDevice(s) => PolicyFailure::LanNoDevice(s@),
            PolicyError::GroupNotFound(s) => PolicyFailure::GroupNotFound(s@),
            PolicyError::GroupNoActive(s) => PolicyFailure::GroupNoActive(s@),
            PolicyError::TooManyTargets(n) => PolicyFailure::TooManyTargets(*n as nat),
            PolicyError::TargetNotFound(s) => PolicyFailure::TargetNotFound(s@),
            PolicyError::TargetNoDevice(s) => PolicyFailure::TargetNoDevice(s@),
        }
    }
}

/// The active interface recorded for the group with id `id`, as read from the
/// state store (the first record for that id).
pub open spec fn stored_for(states: Seq<(String, Option<String>)>, id: Seq<char>, i: int) -> Option<Seq<char>>
    decreases states.len() - i,
{
    if i < 0 || i >= states.len() {
        None
    } else if states[i].0@ == id {
        opt_text(states[i].1)
    } else {
        stored_for(states, id, i + 1)
    }
}

/// The interface a group routes through: the recorded one while it belongs
/// to the group, else the group's first interface.
pub open spec fn group_active(g: InterfaceGroupConfig, stored: Option<Seq<char>>) -> Option<Seq<char>> {
    if stored is Some && g.members().contains(stored.unwrap()) {
        stored
    } else if g.members().len() > 0 {
        Some(g.members()[0])
    } else {
        None
    }
}

/// The interface that a target routes through: the target itself, or for a
/// target `group:<id>` the active interface of that enabled group.
pub open spec fn spec_resolve(groups: Seq<InterfaceGroupConfig>, states: Seq<(String, Option<String>)>, target: Seq<
    char,
>) -> Result<Seq<char>, PolicyFailure> {
    match spec_group_id_from_target(target) {
        None => Ok(target),
        Some(id) => match group_index(groups, id) {
            None => Err(PolicyFailure::GroupNotFound(id)),
            Some(k) => match group_active(groups[k], stored_for(states, id, 0)) {
                Some(a) => Ok(a),
                None => Err(PolicyFailure::GroupNoActive(id)),
            },
        },
    }
}

fn stored_active<'a>(states: &'a Vec<(String, Option<String>)>, id: &str) -> (r: Option<&'a String>)
    ensures
        match r {
            Some(x) => stored_for(states@, id@, 0) == Some(x@),
            None => stored_for(states@, id@, 0) is None,
        },
{
    let mut i: usize = 0;
    while i < states.len()
        invariant
            i <= states.len(),
            stored_for(states@, id@, 0) == stored_for(states@, id@, i as int),
        decreases states.len() - i,
    {
        if str_eq(states[i].0.as_str(), id) {
            return match &states[i].1 {
                Some(a) => Some(a),
                None => None,
            };
        }
        i += 1;
    }
    None
}

/// The interface that a target routes through.
pub fn resolve_target_interface(
    config: &Config,
    target: &str,
    group_states: &Vec<(String, Option<String>)>,
) -> (r: Result<String, PolicyError>)
    ensures
        match r {
            Ok(t) => spec_resolve(config.interface_groups@, group_states@, target@) == Ok::<
                Seq<char>,
                PolicyFailure,
            >(t@),
            Err(e) => spec_resolve(config.interface_groups@, group_states@, target@) == Err::<
                Seq<char>,
                PolicyFailure,
            >(e@),
        },
{
    let id = match crate::config::group_id_from_target(target) {
        None => {
            return Ok(owned(target));
        },
        Some(id) => id,
    };
    let group = match config.find_interface_group(id) {
        None => {
            return Err(PolicyError::GroupNotFound(owned(id)));
        },
        Some(g) => g,
    };
    if let Some(s) = stored_active(group_states, id) {
        let sc = chars_of(s.as_str());
        if crate::config::is_member(group, sc.as_slice()) {
            return Ok(s.clone());
        }
    }
    match group.primary_interface() {
        Some(p) => Ok(owned(p)),
        None => Err(PolicyError::GroupNoActive(owned(id))),
    }
}

// ---------------------------------------------------------------------------
// Grouping prefixes by target
// ---------------------------------------------------------------------------

/// What one ASN or custom route brings to the policy: its resolved target
/// interface and its prefixes.
pub struct Contribution {
    pub target: Seq<char>,
    pub custom: bool,
    pub prefixes: Seq<Seq<char>>,
}

/// What the policy routes through one target interface.
pub struct BuildView {
    pub asn_count: nat,
    pub custom_count: nat,
    pub asn_prefixes: Set<Seq<char>>,
    pub custom_prefixes: Set<Seq<char>>,
}

pub open spec fn empty_build() -> BuildView {
    BuildView { asn_count: 0, custom_count: 0, asn_prefixes: Set::empty(), custom_prefixes: Set::empty() }
}

pub open spec fn add_contribution(b: BuildView, c: Contribution) -> BuildView {
    if c.custom {
        BuildView {
            custom_count: b.custom_count + 1,
            custom_prefixes: b.custom_prefixes.union(c.prefixes.to_set()),
            ..b
        }
    } else {
        BuildView {
            asn_count: b.asn_count + 1,
            asn_prefixes: b.asn_prefixes.union(c.prefixes.to_set()),
            ..b
        }
    }
}

pub open spec fn add_to_map(m: Map<Seq<char>, BuildView>, c: Contribution) -> Map<Seq<char>, BuildView> {
    let b = if m.contains_key(c.target) {
        m[c.target]
    } else {
        empty_build()
    };
    m.insert(c.target, add_contribution(b, c))
}

/// The targets of a list of contributions and what each one routes.
pub open spec fn fold_builds(cs: Seq<Contribution>) -> Map<Seq<char>, BuildView>
    decreases cs.len(),
{
    if cs.len() == 0 {
        Map::empty()
    } else {
        add_to_map(fold_builds(cs.drop_last()), cs.last())
    }
}

/// The valid IPv4 prefixes stored for `asn` (the first record for it).
pub open spec fn stored_prefixes(rows: Seq<(String, Vec<String>)>, asn: Seq<char>, i: int) -> Seq<Seq<char>>
    decreases rows.len() - i,
{
    if i < 0 || i >= rows.len() {
        Seq::empty()
    } else if rows[i].0@ == asn {
        texts(rows[i].1@).filter(|p: Seq<char>| spec_is_valid_ipv4_prefix(p))
    } else {
        stored_prefixes(rows, asn, i + 1)
    }
}

/// The contributions of the enabled ASNs, in order; the first target that
/// cannot be resolved stops them.
pub open spec fn asn_contributions(
    asns: Seq<AsnView>,
    groups: Seq<InterfaceGroupConfig>,
    states: Seq<(String, Option<String>)>,
    rows: Seq<(String, Vec<String>)>,
) -> Result<Seq<Contribution>, PolicyFailure>
    decreases asns.len(),
{
    if asns.len() == 0 {
        Ok(Seq::empty())
    } else {
        match asn_contributions(asns.drop_last(), groups, states, rows) {
            Err(e) => Err(e),
            Ok(cs) => match spec_resolve(groups, states, asns.last().target_interface) {
                Err(e) => Err(e),
                Ok(t) => Ok(
                    cs.push(
                        Contribution { target: t, custom: false, prefixes: stored_prefixes(rows, asns.last().asn, 0) },
                    ),
                ),
            },
        }
    }
}

/// The contributions of the enabled custom routes, after `start`, in order.
pub open spec fn route_contributions(
    routes: Seq<RouteView>,
    groups: Seq<InterfaceGroupConfig>,
    states: Seq<(String, Option<String>)>,
    start: Seq<Contribution>,
) -> Result<Seq<Contribution>, PolicyFailure>
    decreases routes.len(),
{
    if routes.len() == 0 {
        Ok(start)
    } else {
        match route_contributions(routes.drop_last(), groups, states, start) {
            Err(e) => Err(e),
            Ok(cs) => match spec_resolve(groups, states, routes.last().target_interface) {
                Err(e) => Err(e),
                Ok(t) => Ok(cs.push(Contribution { target: t, custom: true, prefixes: seq![routes.last().destination] })),
            },
        }
    }
}

/// The prefixes grouped for one target while the policy is planned.
pub struct PrefixGroupBuild {
    pub asn_count: usize,
    pub custom_route_count: usize,
    pub asn_prefixes: Vec<Vec<char>>,
    pub custom_prefixes: Vec<Vec<char>>,
}

pub open spec fn build_view(b: PrefixGroupBuild) -> BuildView {
    BuildView {
        asn_count: b.asn_count as nat,
        custom_count: b.custom_route_count as nat,
        asn_prefixes: views(b.asn_prefixes@).to_set(),
        custom_prefixes: views(b.custom_prefixes@).to_set(),
    }
}

/// The sorted targets `keys` with their builds stand for the map `m`.
pub open spec fn builds_match(keys: Seq<Seq<char>>, builds: Seq<PrefixGroupBuild>, m: Map<Seq<char>, BuildView>) -> bool {
    &&& sorted_strict(keys)
    &&& keys.len() == builds.len()
    &&& m.dom() == keys.to_set()
    &&& forall|j: int|
        0 <= j < keys.len() ==> m[#[trigger] keys[j]] == build_view(builds[j]) && sorted_strict(
            views(builds[j].asn_prefixes@),
        ) && sorted_strict(views(builds[j].custom_prefixes@))
}

/// Adds every item to a sorted set of texts.
fn insert_all(set: &mut Vec<Vec<char>>, items: &Vec<String>)
    requires
        sorted_strict(views(old(set)@)),
    ensures
        sorted_strict(views(final(set)@)),
        views(final(set)@).to_set() == views(old(set)@).to_set().union(texts(items@).to_set()),
{
    let ghost start = views(set@).to_set();
    for i in 0..items.len()
        invariant
            sorted_strict(views(set@)),
            views(set@).to_set() == start.union(texts(items@).take(i as int).to_set()),
    {
        let c = chars_of(items[i].as_str());
        insert_sorted(set, c);
        proof {
            assert(texts(items@).take(i + 1) == texts(items@).take(i as int).push(items@[i as int]@));
            lemma_push_to_set(texts(items@).take(i as int), items@[i as int]@);
        }
        assert(views(set@).to_set() =~= start.union(texts(items@).take(i + 1).to_set()));
    }
    assert(texts(items@).take(items.len() as int) == texts(items@));
}

/// Adds one contribution to the builds.
fn add_to_builds(
    keys: &mut Vec<Vec<char>>,
    builds: &mut Vec<PrefixGroupBuild>,
    target: &str,
    custom: bool,
    prefixes: &Vec<String>,
    Ghost(m): Ghost<Map<Seq<char>, BuildView>>,
)
    requires
        builds_match(views(old(keys)@), old(builds)@, m),
        m.contains_key(target@) ==> if custom {
            m[target@].custom_count < usize::MAX
        } else {
            m[target@].asn_count < usize::MAX
        },
    ensures
        builds_match(
            views(final(keys)@),
            final(builds)@,
            add_to_map(m, Contribution { target: target@, custom: custom, prefixes: texts(prefixes@) }),
        ),
{
    let ghost c = Contribution { target: target@, custom: custom, prefixes: texts(prefixes@) };
    let tc = chars_of(target);
    let ghost kb = views(keys@);
    let pos = match search_sorted(keys, tc.as_slice()) {
        Ok(pos) => {
            assert(kb[pos as int] == target@);
            pos
        },
        Err(pos) => {
            proof {
                assert forall|j: int| 0 <= j < pos implies seq_lt(#[trigger] kb[j], target@) by {
                    assert(kb[j] == keys@[j]@);
                }
                assert forall|j: int| pos <= j < kb.len() implies seq_lt(target@, #[trigger] kb[j]) by {
                    assert(kb[j] == keys@[j]@);
                }
                crate::strset::lemma_insert_sorted(kb, pos as int, target@);
                assert(!m.contains_key(target@));
            }
            let ghost bb = builds@;
            keys.insert(pos, tc);
            let fresh = PrefixGroupBuild {
                asn_count: 0,
                custom_route_count: 0,
                asn_prefixes: Vec::new(),
                custom_prefixes: Vec::new(),
            };
            builds.insert(pos, fresh);
            proof {
                assert(views(keys@) =~= kb.insert(pos as int, target@));
                assert(build_view(fresh) =~= empty_build()) by {
                    assert(views(fresh.asn_prefixes@).to_set() =~= Set::empty());
                    assert(views(fresh.custom_prefixes@).to_set() =~= Set::empty());
                }
                let m2 = m.insert(target@, empty_build());
                assert(m2.dom() =~= views(keys@).to_set());
                assert forall|j: int| 0 <= j < views(keys@).len() implies m2[#[trigger] views(keys@)[j]] == build_view(
                    builds@[j],
                ) && sorted_strict(views(builds@[j].asn_prefixes@)) && sorted_strict(
                    views(builds@[j].custom_prefixes@),
                ) by {
                    if j < pos {
                        assert(views(keys@)[j] == kb[j] && builds@[j] == bb[j]);
                        lemma_sorted_distinct(views(keys@), j, pos as int);
                    } else if j > pos {
                        assert(views(keys@)[j] == kb[j - 1] && builds@[j] == bb[j - 1]);
                        lemma_sorted_distinct(views(keys@), j, pos as int);
                    }
                }
            }
            pos
        },
    };
    let ghost m1 = if m.contains_key(target@) {
        m
    } else {
        m.insert(target@, empty_build())
    };
    assert(builds_match(views(keys@), builds@, m1));
    assert(views(keys@)[pos as int] == target@);
    assert(m1[target@] == build_view(builds@[pos as int]));
    let ghost kv = views(keys@);
    let ghost bb2 = builds@;
    let mut b = builds.remove(pos);
    if custom {
        b.custom_route_count = b.custom_route_count + 1;
        insert_all(&mut b.custom_prefixes, prefixes);
    } else {
        b.asn_count = b.asn_count + 1;
        insert_all(&mut b.asn_prefixes, prefixes);
    }
    builds.insert(pos, b);
    proof {
        let m3 = add_to_map(m, c);
        assert(m1[target@] == (if m.contains_key(target@) {
            m[target@]
        } else {
            empty_build()
        }));
        assert(build_view(b) =~= add_contribution(m1[target@], c));
        assert(m3 =~= m1.insert(target@, build_view(b)));
        assert(builds@ =~= bb2.update(pos as int, b));
        assert forall|j: int| 0 <= j < kv.len() implies m3[#[trigger] kv[j]] == build_view(builds@[j])
            && sorted_strict(views(builds@[j].asn_prefixes@)) && sorted_strict(views(builds@[j].custom_prefixes@)) by {
            if j != pos {
                lemma_sorted_distinct(kv, j, pos as int);
            }
        }
        assert(m3.dom() =~= kv.to_set());
        assert(views(keys@) == kv);
        assert(sorted_strict(kv));
        assert(kv.len() == builds@.len());
        assert(builds_match(views(keys@), builds@, m3));
    }
}

// ---------------------------------------------------------------------------
// nftables identifiers
// ---------------------------------------------------------------------------

pub open spec fn ident_char(c: char) -> bool {
    ('a' <= c && c <= 'z') || ('A' <= c && c <= 'Z') || ('0' <= c && c <= '9') || c == '_'
}

/// An interface name made fit for an nftables identifier: every character
/// other than an ASCII letter, digit or `_` becomes `_`; `iface` if empty.
pub open spec fn spec_sanitize(s: Seq<char>) -> Seq<char> {
    if s.len() == 0 {
        "iface"@
    } else {
        s.map_values(|c: char| if ident_char(c) { c } else { '_' })
    }
}

/// An interface name made fit for an nftables identifier.
pub fn sanitize_nft_ident(value: &str) -> (r: String)
    ensures
        r@ == spec_sanitize(value@),
{
    let v = chars_of(value);
    let mut out = String::new();
    for i in 0..v.len()
        invariant
            out@ == v@.take(i as int).map_values(|c: char| if ident_char(c) { c } else { '_' }),
    {
        let c = v[i];
        let ok = ('a' <= c && c <= 'z') || ('A' <= c && c <= 'Z') || ('0' <= c && c <= '9') || c == '_';
        crate::text::push_char(&mut out, if ok { c } else { '_' });
        assert(v@.take(i + 1) == v@.take(i as int).push(c));
    }
    assert(v@.take(v.len() as int) == v@);
    if v.len() == 0 {
        return owned("iface");
    }
    out
}

/// A sanitized name is never empty and holds only ASCII letters, digits and `_`.
pub proof fn lemma_sanitize_is_ident(s: Seq<char>)
    ensures
        spec_sanitize(s).len() > 0,
        forall|i: int| 0 <= i < spec_sanitize(s).len() ==> ident_char(#[trigger] spec_sanitize(s)[i]),
{
    reveal_strlit("iface");
}

/// The name of the set of ASN prefixes of target `index`.
pub open spec fn asn_set_name(index: nat, interface: Seq<char>) -> Seq<char> {
    "to_"@ + dec(index) + "_"@ + spec_sanitize(interface) + "_v4"@
}

/// The name of the set of custom prefixes of target `index`.
pub open spec fn custom_set_name(index: nat, interface: Seq<char>) -> Seq<char> {
    "custom_"@ + asn_set_name(index, interface)
}

fn set_names(index: u64, interface: &str) -> (r: (String, String))
    ensures
        r.0@ == asn_set_name(index as nat, interface@),
        r.1@ == custom_set_name(index as nat, interface@),
{
    let ident = sanitize_nft_ident(interface);
    let mut name = owned("to_");
    push_decimal(&mut name, index);
    push_str(&mut name, "_");
    push_str(&mut name, ident.as_str());
    push_str(&mut name, "_v4");
    let mut custom = owned("custom_");
    push_str(&mut custom, name.as_str());
    (name, custom)
}

// ---------------------------------------------------------------------------
// The plan
// ---------------------------------------------------------------------------

/// The routing of one target interface.
pub struct PolicyGroup {
    pub interface: String,
    pub device: String,
    pub table_id: u32,
    pub mark: u32,
    pub pref: u32,
    pub asn_set_name: String,
    pub custom_set_name: String,
    pub asn_count: usize,
    pub custom_route_count: usize,
    pub asn_prefixes: Vec<String>,
    pub custom_prefixes: Vec<String>,
    pub default_route: Option<NetworkRoute>,
}

/// The route policy: the LAN device that marked traffic comes from, and one
/// group per target interface, in increasing order of interface name.
pub struct PolicyPlan {
    pub lan_device: String,
    pub groups: Vec<PolicyGroup>,
}

pub open spec fn has_prefixes(b: BuildView) -> bool {
    b.asn_prefixes != Set::<Seq<char>>::empty() || b.custom_prefixes != Set::<Seq<char>>::empty()
}

/// The targets that route at least one prefix.
pub open spec fn retained_targets(m: Map<Seq<char>, BuildView>) -> Set<Seq<char>> {
    m.dom().filter(|k: Seq<char>| has_prefixes(m[k]))
}

/// A target interface that is found and has a device.
pub open spec fn target_ok(ifaces: Seq<InterfaceView>, name: Seq<char>) -> bool {
    spec_find_interface(ifaces, name) matches Some(k) && spec_device_name(ifaces[k]) is Some
}

/// The contributions of the enabled ASNs and then the enabled custom routes.
pub open spec fn all_contributions(
    config: Config,
    states: Seq<(String, Option<String>)>,
    rows: Seq<(String, Vec<String>)>,
) -> Result<Seq<Contribution>, PolicyFailure> {
    let groups = config.interface_groups@;
    match asn_contributions(asn_views(config.asns@).filter(|a: AsnView| a.enabled), groups, states, rows) {
        Err(e) => Err(e),
        Ok(cs) => route_contributions(
            route_views(config.custom_routes@).filter(|r: RouteView| r.enabled),
            groups,
            states,
            cs,
        ),
    }
}

/// The group planned for target `name` at position `j`.
pub open spec fn group_planned(g: PolicyGroup, j: int, b: BuildView, iface: InterfaceView) -> bool {
    &&& Some(g.device@) == spec_device_name(iface)
    &&& g.table_id == TABLE_ID_BASE + j
    &&& g.mark == MARK_BASE + j
    &&& g.pref == RULE_PREF_BASE + j
    &&& g.asn_set_name@ == asn_set_name(j as nat, g.interface@)
    &&& g.custom_set_name@ == custom_set_name(j as nat, g.interface@)
    &&& g.asn_count == b.asn_count
    &&& g.custom_route_count == b.custom_count
    &&& sorted_strict(texts(g.asn_prefixes@))
    &&& texts(g.asn_prefixes@).to_set() == b.asn_prefixes
    &&& sorted_strict(texts(g.custom_prefixes@))
    &&& texts(g.custom_prefixes@).to_set() == b.custom_prefixes
    &&& match g.default_route {
        Some(r) => default_route_from(iface.routes, 0) matches Some(k) && r@ == iface.routes[k],
        None => default_route_from(iface.routes, 0) is None,
    }
}

pub open spec fn group_names(gs: Seq<PolicyGroup>) -> Seq<Seq<char>> {
    gs.map_values(|g: PolicyGroup| g.interface@)
}

/// Why planning fails, given that the LAN interface and all targets resolve:
/// too many targets, or the first target in name order that is not found or
/// has no device.
pub open spec fn target_failure(ifaces: Seq<InterfaceView>, m: Map<Seq<char>, BuildView>, e: PolicyFailure) -> bool {
    let ts = retained_targets(m);
    if ts.len() > MAX_POLICY_GROUPS {
        e == PolicyFailure::TooManyTargets(ts.len())
    } else {
        exists|x: Seq<char>|
            #![trigger ts.contains(x)]
            ts.contains(x) && !target_ok(ifaces, x) && (forall|y: Seq<char>|
                ts.contains(y) && seq_lt(y, x) ==> target_ok(ifaces, y)) && e == (
            if spec_find_interface(ifaces, x) is None {
                PolicyFailure::TargetNotFound(x)
            } else {
                PolicyFailure::TargetNoDevice(x)
            })
    }
}

/// Why planning fails, in the order the checks are made.
pub open spec fn plan_failure(
    config: Config,
    ifaces: Seq<InterfaceView>,
    states: Seq<(String, Option<String>)>,
    rows: Seq<(String, Vec<String>)>,
    e: PolicyFailure,
) -> bool {
    let lan = config.lan_interface@;
    match spec_find_interface(ifaces, lan) {
        None => e == PolicyFailure::LanNotFound(lan),
        Some(li) => if spec_device_name(ifaces[li]) is None {
            e == PolicyFailure::LanNoDevice(lan)
        } else {
            match all_contributions(config, states, rows) {
                Err(f) => e == f,
                Ok(cs) => target_failure(ifaces, fold_builds(cs), e),
            }
        },
    }
}

/// Whether planning succeeds.
pub open spec fn plan_succeeds(
    config: Config,
    ifaces: Seq<InterfaceView>,
    states: Seq<(String, Option<String>)>,
    rows: Seq<(String, Vec<String>)>,
) -> bool {
    &&& target_ok(ifaces, config.lan_interface@)
    &&& all_contributions(config, states, rows) is Ok
    &&& retained_targets(fold_builds(all_contributions(config, states, rows)->Ok_0)).len() <= MAX_POLICY_GROUPS
    &&& forall|y: Seq<char>|
        #[trigger] retained_targets(fold_builds(all_contributions(config, states, rows)->Ok_0)).contains(y)
            ==> target_ok(ifaces, y)
}

/// The valid prefixes stored for an ASN.
fn valid_prefixes(rows: &Vec<(String, Vec<String>)>, asn: &str) -> (r: Vec<String>)
    ensures
        texts(r@) == stored_prefixes(rows@, asn@, 0),
{
    let mut i: usize = 0;
    while i < rows.len()
        invariant
            i <= rows.len(),
            stored_prefixes(rows@, asn@, 0) == stored_prefixes(rows@, asn@, i as int),
        decreases rows.len() - i,
    {
        if str_eq(rows[i].0.as_str(), asn) {
            let list = &rows[i].1;
            let ghost all = texts(list@);
            let mut out: Vec<String> = Vec::new();
            for k in 0..list.len()
                invariant
                    all == texts(list@),
                    texts(out@) == all.take(k as int).filter(|p: Seq<char>| spec_is_valid_ipv4_prefix(p)),
            {
                assert(all.take(k + 1) == all.take(k as int).push(list@[k as int]@));
                if is_valid_ipv4_prefix(list[k].as_str()) {
                    let ghost prev = out@;
                    out.push(list[k].clone());
                    assert(texts(out@) == texts(prev).push(list@[k as int]@));
                }
            }
            assert(all.take(list.len() as int) == all);
            return out;
        }
        i += 1;
    }
    Vec::new()
}

/// The strings of a list of character sequences.
fn strings_of(v: &Vec<Vec<char>>) -> (r: Vec<String>)
    ensures
        texts(r@) == views(v@),
{
    let mut r: Vec<String> = Vec::new();
    for i in 0..v.len()
        invariant
            texts(r@) == views(v@.take(i as int)),
    {
        let s = string_from(v[i].as_slice());
        let ghost prev = r@;
        r.push(s);
        assert(texts(r@) == texts(prev).push(s@));
        assert(views(v@.take(i + 1)) == views(v@.take(i as int)).push(v@[i as int]@));
    }
    assert(v@.take(v.len() as int) == v@);
    r
}

pub proof fn lemma_to_set_empty<A>(s: Seq<A>)
    ensures
        (s.to_set() == Set::<A>::empty()) == (s.len() == 0),
{
    if s.len() == 0 {
        assert(s.to_set() =~= Set::<A>::empty());
    } else {
        assert(s.to_set().contains(s[0]));
    }
}

pub proof fn lemma_asn_contributions_err(
    asns: Seq<AsnView>,
    n: int,
    groups: Seq<InterfaceGroupConfig>,
    states: Seq<(String, Option<String>)>,
    rows: Seq<(String, Vec<String>)>,
)
    requires
        0 <= n <= asns.len(),
        asn_contributions(asns.take(n), groups, states, rows) is Err,
    ensures
        asn_contributions(asns, groups, states, rows) == asn_contributions(asns.take(n), groups, states, rows),
    decreases asns.len() - n,
{
    if n < asns.len() {
        assert(asns.take(n + 1).drop_last() == asns.take(n));
        lemma_asn_contributions_err(asns, n + 1, groups, states, rows);
    } else {
        assert(asns.take(n) == asns);
    }
}

pub proof fn lemma_route_contributions_err(
    routes: Seq<RouteView>,
    n: int,
    groups: Seq<InterfaceGroupConfig>,
    states: Seq<(String, Option<String>)>,
    start: Seq<Contribution>,
)
    requires
        0 <= n <= routes.len(),
        route_contributions(routes.take(n), groups, states, start) is Err,
    ensures
        route_contributions(routes, groups, states, start) == route_contributions(routes.take(n), groups, states, start),
    decreases routes.len() - n,
{
    if n < routes.len() {
        assert(routes.take(n + 1).drop_last() == routes.take(n));
        lemma_route_contributions_err(routes, n + 1, groups, states, start);
    } else {
        assert(routes.take(n) == routes);
    }
}

/// Plans the route policy: each enabled ASN and custom route is resolved to
/// its target interface, the prefixes are grouped by target, and each target
/// that routes a prefix gets, in name order, a routing table, a firewall mark
/// and an `ip rule` preference of its own.
#[verifier::rlimit(40)]
#[verifier::loop_isolation(false)]
pub fn build_policy_plan(
    config: &Config,
    interfaces: &Vec<NetworkInterface>,
    group_states: &Vec<(String, Option<String>)>,
    asn_prefixes: &Vec<(String, Vec<String>)>,
) -> (r: Result<PolicyPlan, PolicyError>)
    ensures
        r is Ok <==> plan_succeeds(*config, interface_views(interfaces@), group_states@, asn_prefixes@),
        r matches Err(e) ==> plan_failure(*config, interface_views(interfaces@), group_states@, asn_prefixes@, e@),
        r matches Ok(p) ==> ({
            let ifaces = interface_views(interfaces@);
            let m = fold_builds(all_contributions(*config, group_states@, asn_prefixes@)->Ok_0);
            &&& Some(p.lan_device@) == spec_device_name(
                ifaces[spec_find_interface(ifaces, config.lan_interface@).unwrap()],
            )
            &&& sorted_strict(group_names(p.groups@))
            &&& group_names(p.groups@).to_set() == retained_targets(m)
            &&& forall|j: int|
                0 <= j < p.groups.len() ==> group_planned(
                    #[trigger] p.groups@[j],
                    j,
                    m[p.groups@[j].interface@],
                    ifaces[spec_find_interface(ifaces, p.groups@[j].interface@).unwrap()],
                )
        }),
{
    let ghost ifaces = interface_views(interfaces@);
    let lan = match find_interface(interfaces, config.lan_interface.as_str()) {
        None => {
            return Err(PolicyError::LanNotFound(config.lan_interface.clone()));
        },
        Some(l) => l,
    };
    let lan_device = match lan.device_name() {
        None => {
            return Err(PolicyError::LanNoDevice(config.lan_interface.clone()));
        },
        Some(d) => d,
    };
    let ghost groups = config.interface_groups@;
    let ghost states = group_states@;
    let ghost rows = asn_prefixes@;
    let asns = config.active_asns();
    let ghost av = asn_views(config.asns@).filter(|a: AsnView| a.enabled);
    let mut keys: Vec<Vec<char>> = Vec::new();
    let mut builds: Vec<PrefixGroupBuild> = Vec::new();
    let ghost mut cs: Seq<Contribution> = Seq::empty();
    proof {
        assert(av.take(0) == Seq::<AsnView>::empty());
        assert(fold_builds(cs).dom() =~= views(keys@).to_set());
    }
    for i in 0..asns.len()
        invariant
            asn_ref_views(asns@) == av,
            av == asn_views(config.asns@).filter(|a: AsnView| a.enabled),
            groups == config.interface_groups@,
            states == group_states@,
            rows == asn_prefixes@,
            asn_contributions(av.take(i as int), groups, states, rows) == Ok::<Seq<Contribution>, PolicyFailure>(cs),
            builds_match(views(keys@), builds@, fold_builds(cs)),
            forall|k: Seq<char>|
                #[trigger] fold_builds(cs).contains_key(k) ==> fold_builds(cs)[k].asn_count <= i
                    && fold_builds(cs)[k].custom_count == 0,
    {
        let a = asns[i];
        assert(av[i as int] == a@);
        assert(av.take(i + 1).drop_last() == av.take(i as int));
        assert(av.take(i + 1).last() == a@);
        let target = match resolve_target_interface(config, a.target_interface.as_str(), group_states) {
            Err(e) => {
                proof {
                    lemma_asn_contributions_err(av, i + 1, groups, states, rows);
                }
                return Err(e);
            },
            Ok(t) => t,
        };
        let prefixes = valid_prefixes(asn_prefixes, a.asn.as_str());
        let ghost c = Contribution { target: target@, custom: false, prefixes: texts(prefixes@) };
        add_to_builds(&mut keys, &mut builds, target.as_str(), false, &prefixes, Ghost(fold_builds(cs)));
        proof {
            assert(cs.push(c).drop_last() == cs);
            cs = cs.push(c);
        }
    }
    assert(av.take(asns.len() as int) == av);
    let ghost cs_asn = cs;
    let routes = config.active_custom_routes();
    let ghost rv = route_views(config.custom_routes@).filter(|r: RouteView| r.enabled);
    let ghost n_asns = asns.len();
    proof {
        assert(rv.take(0) == Seq::<RouteView>::empty());
    }
    for j in 0..routes.len()
        invariant
            route_ref_views(routes@) == rv,
            rv == route_views(config.custom_routes@).filter(|r: RouteView| r.enabled),
            groups == config.interface_groups@,
            states == group_states@,
            asn_contributions(av, groups, states, rows) == Ok::<Seq<Contribution>, PolicyFailure>(cs_asn),
            route_contributions(rv.take(j as int), groups, states, cs_asn) == Ok::<Seq<Contribution>, PolicyFailure>(cs),
            builds_match(views(keys@), builds@, fold_builds(cs)),
            n_asns < usize::MAX + 1,
            forall|k: Seq<char>|
                #[trigger] fold_builds(cs).contains_key(k) ==> fold_builds(cs)[k].asn_count <= n_asns
                    && fold_builds(cs)[k].custom_count <= j,
    {
        let rt = routes[j];
        assert(rv[j as int] == rt@);
        assert(rv.take(j + 1).drop_last() == rv.take(j as int));
        assert(rv.take(j + 1).last() == rt@);
        let target = match resolve_target_interface(config, rt.target_interface.as_str(), group_states) {
            Err(e) => {
                proof {
                    lemma_route_contributions_err(rv, j + 1, groups, states, cs_asn);
                }
                return Err(e);
            },
            Ok(t) => t,
        };
        let mut prefixes: Vec<String> = Vec::new();
        prefixes.push(rt.destination.clone());
        assert(texts(prefixes@) == seq![rt@.destination]);
        let ghost c = Contribution { target: target@, custom: true, prefixes: texts(prefixes@) };
        add_to_builds(&mut keys, &mut builds, target.as_str(), true, &prefixes, Ghost(fold_builds(cs)));
        proof {
            assert(cs.push(c).drop_last() == cs);
            cs = cs.push(c);
        }
    }
    assert(rv.take(routes.len() as int) == rv);
    assert(all_contributions(*config, group_states@, asn_prefixes@) == Ok::<Seq<Contribution>, PolicyFailure>(cs));
    let ghost m = fold_builds(cs);
    let ghost kv = views(keys@);
    let mut sel: Vec<usize> = Vec::new();
    for i in 0..keys.len()
        invariant
            kv == views(keys@),
            builds_match(kv, builds@, m),
            forall|t: int| 0 <= t < sel.len() ==> #[trigger] sel@[t] < i,
            forall|t: int, t2: int| 0 <= t < t2 < sel.len() ==> #[trigger] sel@[t] < #[trigger] sel@[t2],
            forall|t: int| 0 <= t < sel.len() ==> has_prefixes(m[kv[#[trigger] sel@[t] as int]]),
            forall|k: int|
                0 <= k < i && has_prefixes(m[#[trigger] kv[k]]) ==> exists|t: int| 0 <= t < sel.len() && sel@[t] == k,
    {
        let na = builds[i].asn_prefixes.len() > 0;
        let nc = builds[i].custom_prefixes.len() > 0;
        proof {
            lemma_to_set_empty(views(builds@[i as int].asn_prefixes@));
            lemma_to_set_empty(views(builds@[i as int].custom_prefixes@));
            assert(m[kv[i as int]] == build_view(builds@[i as int]));
        }
        let ghost before = sel@;
        if na || nc {
            sel.push(i);
            assert(sel@[sel.len() - 1] == i);
        }
        proof {
            assert forall|k: int|
                0 <= k < i + 1 && has_prefixes(m[#[trigger] kv[k]]) implies exists|t: int|
                0 <= t < sel.len() && sel@[t] == k by {
                if k < i {
                    let t = choose|t: int| 0 <= t < before.len() && before[t] == k;
                    assert(sel@[t] == k);
                } else {
                    assert(sel@[sel.len() - 1] == i);
                }
            }
        }
    }
    let ghost names = Seq::new(sel.len() as nat, |t: int| kv[sel@[t] as int]);
    proof {
        assert forall|t: int, t2: int| 0 <= t < t2 < names.len() implies seq_lt(#[trigger] names[t], #[trigger] names[t2]) by {
            assert(sel@[t] < sel@[t2]);
        }
        let ts = retained_targets(m);
        assert forall|x: Seq<char>| #[trigger] names.to_set().contains(x) == ts.contains(x) by {
            if names.contains(x) {
                let t = choose|t: int| 0 <= t < names.len() && names[t] == x;
                assert(kv.to_set().contains(kv[sel@[t] as int]));
            }
            if ts.contains(x) {
                assert(kv.to_set().contains(x));
                let k = choose|k: int| 0 <= k < kv.len() && kv[k] == x;
                let t = choose|t: int| 0 <= t < sel.len() && sel@[t] == k;
                assert(names[t] == x);
            }
        }
        assert(names.to_set() =~= ts);
        lemma_sorted_set_len(names);
    }
    if sel.len() > 32 {
        return Err(PolicyError::TooManyTargets(sel.len()));
    }
    let mut out: Vec<PolicyGroup> = Vec::new();
    for t in 0..sel.len()
        invariant
            kv == views(keys@),
            builds_match(kv, builds@, m),
            sel.len() <= 32,
            names.len() == sel.len(),
            forall|u: int| 0 <= u < sel.len() ==> #[trigger] sel@[u] < kv.len() && names[u] == kv[sel@[u] as int],
            sorted_strict(names),
            names.to_set() == retained_targets(m),
            ifaces == interface_views(interfaces@),
            out.len() == t,
            forall|u: int|
                0 <= u < t ==> target_ok(ifaces, #[trigger] names[u]) && out@[u].interface@ == names[u] && group_planned(
                    out@[u],
                    u,
                    m[names[u]],
                    ifaces[spec_find_interface(ifaces, names[u]).unwrap()],
                ),
    {
        let idx = sel[t];
        let name = string_from(keys[idx].as_slice());
        assert(name@ == names[t as int]);
        let target = match find_interface(interfaces, name.as_str()) {
            None => {
                proof {
                    assert forall|y: Seq<char>| retained_targets(m).contains(y) && seq_lt(y, names[t as int]) implies target_ok(
                        ifaces,
                        y,
                    ) by {
                        assert(names.to_set().contains(y));
                        let u = choose|u: int| 0 <= u < names.len() && names[u] == y;
                        if u >= t {
                            if u > t {
                                assert(seq_lt(names[t as int], names[u]));
                                lemma_lt_total(names[t as int], y);
                            } else {
                                lemma_lt_irreflexive(y);
                            }
                        }
                    }
                    assert(retained_targets(m).contains(names[t as int]));
                }
                return Err(PolicyError::TargetNotFound(name));
            },
            Some(x) => x,
        };
        let device = match target.device_name() {
            None => {
                proof {
                    assert forall|y: Seq<char>| retained_targets(m).contains(y) && seq_lt(y, names[t as int]) implies target_ok(
                        ifaces,
                        y,
                    ) by {
                        assert(names.to_set().contains(y));
                        let u = choose|u: int| 0 <= u < names.len() && names[u] == y;
                        if u >= t {
                            if u > t {
                                assert(seq_lt(names[t as int], names[u]));
                                lemma_lt_total(names[t as int], y);
                            } else {
                                lemma_lt_irreflexive(y);
                            }
                        }
                    }
                    assert(retained_targets(m).contains(names[t as int]));
                }
                return Err(PolicyError::TargetNoDevice(name));
            },
            Some(d) => d,
        };
        let (asn_set, custom_set) = set_names(t as u64, name.as_str());
        let offset = t as u32;
        let b = &builds[idx];
        assert(m[kv[idx as int]] == build_view(*b));
        let asn_list = strings_of(&b.asn_prefixes);
        let custom_list = strings_of(&b.custom_prefixes);
        let default_route = match target.default_ipv4_route() {
            Some(rt) => Some(copy_route(rt)),
            None => None,
        };
        let g = PolicyGroup {
            interface: name,
            device,
            table_id: TABLE_ID_BASE + offset,
            mark: MARK_BASE + offset,
            pref: RULE_PREF_BASE + offset,
            asn_set_name: asn_set,
            custom_set_name: custom_set,
            asn_count: b.asn_count,
            custom_route_count: b.custom_route_count,
            asn_prefixes: asn_list,
            custom_prefixes: custom_list,
            default_route,
        };
        out.push(g);
    }
    proof {
        assert(group_names(out@) =~= names);
        assert forall|y: Seq<char>| #[trigger] retained_targets(m).contains(y) implies target_ok(ifaces, y) by {
            assert(names.to_set().contains(y));
            let u = choose|u: int| 0 <= u < names.len() && names[u] == y;
        }
        assert forall|j: int| 0 <= j < out.len() implies group_planned(
            #[trigger] out@[j],
            j,
            m[out@[j].interface@],
            ifaces[spec_find_interface(ifaces, out@[j].interface@).unwrap()],
        ) by {
            assert(out@[j].interface@ == names[j]);
        }
    }
    Ok(PolicyPlan { lan_device, groups: out })
}

/// Every prefix that an ASN or custom route brings is routed through the
/// interface its target resolves to: that interface is a target of the plan
/// and its set of ASN prefixes (or of custom prefixes) holds the prefix.
pub proof fn lemma_every_prefix_routed(cs: Seq<Contribution>, i: int, p: Seq<char>)
    requires
        0 <= i < cs.len(),
        cs[i].prefixes.contains(p),
    ensures
        fold_builds(cs).contains_key(cs[i].target),
        retained_targets(fold_builds(cs)).contains(cs[i].target),
        if cs[i].custom {
            fold_builds(cs)[cs[i].target].custom_prefixes.contains(p)
        } else {
            fold_builds(cs)[cs[i].target].asn_prefixes.contains(p)
        },
    decreases cs.len(),
{
    let m = fold_builds(cs);
    let t = cs[i].target;
    if i < cs.len() - 1 {
        let pre = cs.drop_last();
        assert(pre[i] == cs[i]);
        lemma_every_prefix_routed(pre, i, p);
    }
    if cs[i].custom {
        assert(m[t].custom_prefixes.contains(p));
    } else {
        assert(m[t].asn_prefixes.contains(p));
    }
}

/// Every prefix that the plan routes through a target comes from an ASN or
/// custom route whose target resolves to it.
pub proof fn lemma_every_routed_prefix_requested(cs: Seq<Contribution>, t: Seq<char>, p: Seq<char>)
    requires
        fold_builds(cs).contains_key(t),
        fold_builds(cs)[t].asn_prefixes.contains(p) || fold_builds(cs)[t].custom_prefixes.contains(p),
    ensures
        exists|i: int| 0 <= i < cs.len() && cs[i].target == t && (#[trigger] cs[i].prefixes).contains(p),
    decreases cs.len(),
{
    let pre = cs.drop_last();
    let c = cs.last();
    let m0 = fold_builds(pre);
    if c.target == t && c.prefixes.contains(p) {
        assert(cs[cs.len() - 1] == c);
    } else {
        assert(m0.contains_key(t));
        lemma_every_routed_prefix_requested(pre, t, p);
        let i = choose|i: int| 0 <= i < pre.len() && pre[i].target == t && (#[trigger] pre[i].prefixes).contains(p);
        assert(cs[i] == pre[i]);
    }
}

/// The contributions of a list of ASNs: one for each, in order, with the
/// ASN's resolved target and its stored prefixes.
pub proof fn lemma_asn_contributions_shape(
    asns: Seq<AsnView>,
    groups: Seq<InterfaceGroupConfig>,
    states: Seq<(String, Option<String>)>,
    rows: Seq<(String, Vec<String>)>,
)
    requires
        asn_contributions(asns, groups, states, rows) is Ok,
    ensures
        ({
            let cs = asn_contributions(asns, groups, states, rows)->Ok_0;
            &&& cs.len() == asns.len()
            &&& forall|i: int|
                0 <= i < cs.len() ==> !(#[trigger] cs[i]).custom && spec_resolve(
                    groups,
                    states,
                    asns[i].target_interface,
                ) == Ok::<Seq<char>, PolicyFailure>(cs[i].target) && cs[i].prefixes == stored_prefixes(
                    rows,
                    asns[i].asn,
                    0,
                )
        }),
    decreases asns.len(),
{
    if asns.len() > 0 {
        let pre = asns.drop_last();
        lemma_asn_contributions_shape(pre, groups, states, rows);
        let cs = asn_contributions(asns, groups, states, rows)->Ok_0;
        let c0 = asn_contributions(pre, groups, states, rows)->Ok_0;
        assert forall|i: int| 0 <= i < cs.len() implies !(#[trigger] cs[i]).custom && spec_resolve(
            groups,
            states,
            asns[i].target_interface,
        ) == Ok::<Seq<char>, PolicyFailure>(cs[i].target) && cs[i].prefixes == stored_prefixes(
            rows,
            asns[i].asn,
            0,
        ) by {
            if i < c0.len() {
                assert(cs[i] == c0[i]);
                assert(asns[i] == pre[i]);
            }
        }
    }
}

/// The contributions of a list of custom routes, after `start`: `start`
/// unchanged, then one for each route, in order, with the route's resolved
/// target and its destination.
pub proof fn lemma_route_contributions_shape(
    routes: Seq<RouteView>,
    groups: Seq<InterfaceGroupConfig>,
    states: Seq<(String, Option<String>)>,
    start: Seq<Contribution>,
)
    requires
        route_contributions(routes, groups, states, start) is Ok,
    ensures
        ({
            let cs = route_contributions(routes, groups, states, start)->Ok_0;
            &&& cs.len() == start.len() + routes.len()
            &&& forall|i: int| 0 <= i < start.len() ==> #[trigger] cs[i] == start[i]
            &&& forall|i: int|
                start.len() <= i < cs.len() ==> (#[trigger] cs[i]).custom && spec_resolve(
                    groups,
                    states,
                    routes[i - start.len()].target_interface,
                ) == Ok::<Seq<char>, PolicyFailure>(cs[i].target) && cs[i].prefixes == seq![
                    routes[i - start.len()].destination,
                ]
        }),
    decreases routes.len(),
{
    if routes.len() > 0 {
        let pre = routes.drop_last();
        lemma_route_contributions_shape(pre, groups, states, start);
        let cs = route_contributions(routes, groups, states, start)->Ok_0;
        let c0 = route_contributions(pre, groups, states, start)->Ok_0;
        assert forall|i: int| 0 <= i < start.len() implies #[trigger] cs[i] == start[i] by {
            assert(cs[i] == c0[i]);
        }
        assert forall|i: int| start.len() <= i < cs.len() implies (#[trigger] cs[i]).custom && spec_resolve(
            groups,
            states,
            routes[i - start.len()].target_interface,
        ) == Ok::<Seq<char>, PolicyFailure>(cs[i].target) && cs[i].prefixes == seq![
            routes[i - start.len()].destination,
        ] by {
            if i < c0.len() {
                assert(cs[i] == c0[i]);
                assert(routes[i - start.len()] == pre[i - start.len()]);
            }
        }
    }
}

/// A prefix that a target routes as a custom prefix (or as an ASN prefix)
/// comes from a custom (or ASN) contribution to that target.
pub proof fn lemma_routed_prefix_kind(cs: Seq<Contribution>, t: Seq<char>, p: Seq<char>, custom: bool)
    requires
        fold_builds(cs).contains_key(t),
        if custom {
            fold_builds(cs)[t].custom_prefixes.contains(p)
        } else {
            fold_builds(cs)[t].asn_prefixes.contains(p)
        },
    ensures
        exists|i: int|
            0 <= i < cs.len() && cs[i].target == t && cs[i].custom == custom && (
            #[trigger] cs[i].prefixes).contains(p),
    decreases cs.len(),
{
    let pre = cs.drop_last();
    let c = cs.last();
    if c.target == t && c.custom == custom && c.prefixes.contains(p) {
        assert(cs[cs.len() - 1] == c);
    } else {
        assert(fold_builds(pre).contains_key(t));
        lemma_routed_prefix_kind(pre, t, p, custom);
        let i = choose|i: int|
            0 <= i < pre.len() && pre[i].target == t && pre[i].custom == custom && (
            #[trigger] pre[i].prefixes).contains(p);
        assert(cs[i] == pre[i]);
    }
}

/// Only enabled entries are routed: every custom prefix that the plan routes
/// through a target is the destination of an enabled custom route whose
/// target resolves to it, and every ASN prefix is stored for an enabled ASN
/// whose target resolves to it. A disabled ASN or route adds nothing.
pub proof fn lemma_planned_prefixes_come_from_enabled_entries(
    config: Config,
    states: Seq<(String, Option<String>)>,
    rows: Seq<(String, Vec<String>)>,
    t: Seq<char>,
    p: Seq<char>,
)
    requires
        all_contributions(config, states, rows) is Ok,
        fold_builds(all_contributions(config, states, rows)->Ok_0).contains_key(t),
    ensures
        fold_builds(all_contributions(config, states, rows)->Ok_0)[t].custom_prefixes.contains(p) ==> exists|
            j: int,
        |
            0 <= j < config.custom_routes.len() && (#[trigger] config.custom_routes@[j]).enabled
                && config.custom_routes@[j].destination@ == p && spec_resolve(
                config.interface_groups@,
                states,
                config.custom_routes@[j].target_interface@,
            ) == Ok::<Seq<char>, PolicyFailure>(t),
        fold_builds(all_contributions(config, states, rows)->Ok_0)[t].asn_prefixes.contains(p) ==> exists|
            j: int,
        |
            0 <= j < config.asns.len() && (#[trigger] config.asns@[j]).enabled && stored_prefixes(
                rows,
                config.asns@[j].asn@,
                0,
            ).contains(p) && spec_resolve(config.interface_groups@, states, config.asns@[j].target_interface@)
                == Ok::<Seq<char>, PolicyFailure>(t),
{
    broadcast use vstd::seq_lib::group_filter_ensures;

    let groups = config.interface_groups@;
    let av = asn_views(config.asns@).filter(|a: AsnView| a.enabled);
    let rv = route_views(config.custom_routes@).filter(|r: RouteView| r.enabled);
    lemma_asn_contributions_shape(av, groups, states, rows);
    let c0 = asn_contributions(av, groups, states, rows)->Ok_0;
    lemma_route_contributions_shape(rv, groups, states, c0);
    let cs = all_contributions(config, states, rows)->Ok_0;
    let m = fold_builds(cs);
    if m[t].custom_prefixes.contains(p) {
        lemma_routed_prefix_kind(cs, t, p, true);
        let i = choose|i: int|
            0 <= i < cs.len() && cs[i].target == t && cs[i].custom == true && (#[trigger] cs[i].prefixes).contains(
                p,
            );
        if i < c0.len() {
            assert(cs[i] == c0[i]);
        }
        let r = rv[i - c0.len()];
        assert(cs[i].prefixes == seq![r.destination]);
        assert(r.destination == p);
        assert(r.enabled);
        assert(rv.contains(r));
        route_views(config.custom_routes@).lemma_filter_contains_rev(|r: RouteView| r.enabled, r);
        let j = choose|j: int| 0 <= j < route_views(config.custom_routes@).len() && route_views(config.custom_routes@)[j] == r;
        assert(route_views(config.custom_routes@)[j] == config.custom_routes@[j]@);
    }
    if m[t].asn_prefixes.contains(p) {
        lemma_routed_prefix_kind(cs, t, p, false);
        let i = choose|i: int|
            0 <= i < cs.len() && cs[i].target == t && cs[i].custom == false && (#[trigger] cs[i].prefixes).contains(
                p,
            );
        assert(i < c0.len());
        assert(cs[i] == c0[i]);
        let a = av[i];
        assert(a.enabled);
        assert(av.contains(a));
        asn_views(config.asns@).lemma_filter_contains_rev(|a: AsnView| a.enabled, a);
        let j = choose|j: int| 0 <= j < asn_views(config.asns@).len() && asn_views(config.asns@)[j] == a;
        assert(asn_views(config.asns@)[j] == config.asns@[j]@);
    }
}

/// The targets of a plan have distinct interfaces, routing tables, marks and
/// rule preferences.
pub proof fn lemma_targets_distinct(gs: Seq<PolicyGroup>, i: int, j: int)
    requires
        sorted_strict(group_names(gs)),
        forall|k: int|
            0 <= k < gs.len() ==> (#[trigger] gs[k]).table_id == TABLE_ID_BASE + k && gs[k].mark == MARK_BASE + k
                && gs[k].pref == RULE_PREF_BASE + k,
        0 <= i < gs.len(),
        0 <= j < gs.len(),
        i != j,
    ensures
        gs[i].interface@ != gs[j].interface@,
        gs[i].table_id != gs[j].table_id,
        gs[i].mark != gs[j].mark,
        gs[i].pref != gs[j].pref,
{
    lemma_sorted_distinct(group_names(gs), i, j);
    assert(gs[i].table_id == TABLE_ID_BASE + i && gs[j].table_id == TABLE_ID_BASE + j);
}

// ---------------------------------------------------------------------------
// Counts and previews
// ---------------------------------------------------------------------------

/// The prefixes a group routes.
pub open spec fn group_prefix_count(g: PolicyGroup) -> nat {
    (g.asn_prefixes.len() + g.custom_prefixes.len()) as nat
}

/// The prefixes all groups route.
pub open spec fn prefix_total(gs: Seq<PolicyGroup>) -> nat
    decreases gs.len(),
{
    if gs.len() == 0 {
        0
    } else {
        prefix_total(gs.drop_last()) + group_prefix_count(gs.last())
    }
}

pub proof fn lemma_prefix_total_prefix(gs: Seq<PolicyGroup>, n: int)
    requires
        0 <= n <= gs.len(),
    ensures
        prefix_total(gs.take(n)) <= prefix_total(gs),
    decreases gs.len() - n,
{
    if n < gs.len() {
        lemma_prefix_total_prefix(gs, n + 1);
        assert(gs.take(n + 1).drop_last() == gs.take(n));
    } else {
        assert(gs.take(n) == gs);
    }
}

impl PolicyGroup {
    /// The prefixes the group routes.
    pub fn ipv4_prefix_count(&self) -> (r: i64)
        requires
            group_prefix_count(*self) <= i64::MAX,
        ensures
            r == group_prefix_count(*self),
    {
        self.asn_prefixes.len() as i64 + self.custom_prefixes.len() as i64
    }

    /// The first `limit` prefixes of the group, custom ones first.
    pub fn sample_prefixes(&self, limit: usize) -> (r: Vec<String>)
        ensures
            texts(r@) == (texts(self.custom_prefixes@) + texts(self.asn_prefixes@)).take(
                if limit <= group_prefix_count(*self) {
                    limit as int
                } else {
                    group_prefix_count(*self) as int
                },
            ),
    {
        let ghost all = texts(self.custom_prefixes@) + texts(self.asn_prefixes@);
        let mut r: Vec<String> = Vec::new();
        let mut i: usize = 0;
        while i < self.custom_prefixes.len() && r.len() < limit
            invariant
                all == texts(self.custom_prefixes@) + texts(self.asn_prefixes@),
                i <= self.custom_prefixes.len(),
                r.len() == i,
                i <= limit,
                texts(r@) == all.take(i as int),
            decreases self.custom_prefixes.len() - i,
        {
            let ghost prev = r@;
            r.push(self.custom_prefixes[i].clone());
            assert(texts(r@) == texts(prev).push(self.custom_prefixes@[i as int]@));
            assert(all.take(i + 1) == all.take(i as int).push(all[i as int]));
            i += 1;
        }
        let mut k: usize = 0;
        while k < self.asn_prefixes.len() && r.len() < limit
            invariant
                all == texts(self.custom_prefixes@) + texts(self.asn_prefixes@),
                r.len() <= limit,
                (r.len() < limit ==> i == self.custom_prefixes.len()),
                i <= self.custom_prefixes.len(),
                k <= self.asn_prefixes.len(),
                k > 0 ==> i == self.custom_prefixes.len(),
                r.len() == i + k,
                texts(r@) == all.take(r.len() as int),
            decreases self.asn_prefixes.len() - k,
        {
            let ghost prev = r@;
            r.push(self.asn_prefixes[k].clone());
            assert(all[(i + k) as int] == self.asn_prefixes@[k as int]@);
            assert(texts(r@) == texts(prev).push(self.asn_prefixes@[k as int]@));
            assert(all.take(i + k + 1) == all.take((i + k) as int).push(all[(i + k) as int]));
            k += 1;
        }
        r
    }
}

/// The prefixes all groups route.
pub fn count_prefixes(groups: &[PolicyGroup]) -> (r: i64)
    requires
        prefix_total(groups@) <= i64::MAX,
    ensures
        r == prefix_total(groups@),
{
    let mut total: i64 = 0;
    for i in 0..groups.len()
        invariant
            prefix_total(groups@) <= i64::MAX,
            total == prefix_total(groups@.take(i as int)),
    {
        proof {
            assert(groups@.take(i + 1).drop_last() == groups@.take(i as int));
            lemma_prefix_total_prefix(groups@, i + 1);
        }
        total = total + groups[i].ipv4_prefix_count();
    }
    assert(groups@.take(groups.len() as int) == groups@);
    total
}

/// What applying a route policy reports.
pub struct PolicyStats {
    pub interface_count: i64,
    pub ipv4_prefix_count: i64,
    pub warning: Option<String>,
}

/// One target of a route policy preview.
pub struct RoutePolicyPreviewGroup {
    pub interface: String,
    pub device: String,
    pub table_id: u32,
    pub mark: u32,
    pub pref: u32,
    pub asn_count: i64,
    pub custom_route_count: i64,
    pub ipv4_prefix_count: i64,
    pub asn_ipv4_prefix_count: i64,
    pub custom_ipv4_prefix_count: i64,
    pub default_route_nexthop: Option<String>,
    pub sample_prefixes: Vec<String>,
}

/// A preview of the route policy.
pub struct RoutePolicyPreview {
    pub interface_count: i64,
    pub ipv4_prefix_count: i64,
    pub groups: Vec<RoutePolicyPreviewGroup>,
}

/// The counts of a plan fit the preview's integers.
pub open spec fn plan_counts_fit(gs: Seq<PolicyGroup>) -> bool {
    &&& gs.len() <= i64::MAX
    &&& prefix_total(gs) <= i64::MAX
    &&& forall|j: int|
        0 <= j < gs.len() ==> (#[trigger] gs[j]).asn_count <= i64::MAX && gs[j].custom_route_count <= i64::MAX
}

/// The preview of one group.
pub open spec fn preview_group_of(p: RoutePolicyPreviewGroup, g: PolicyGroup) -> bool {
    &&& p.interface@ == g.interface@
    &&& p.device@ == g.device@
    &&& p.table_id == g.table_id
    &&& p.mark == g.mark
    &&& p.pref == g.pref
    &&& p.asn_count == g.asn_count
    &&& p.custom_route_count == g.custom_route_count
    &&& p.ipv4_prefix_count == group_prefix_count(g)
    &&& p.asn_ipv4_prefix_count == g.asn_prefixes.len()
    &&& p.custom_ipv4_prefix_count == g.custom_prefixes.len()
    &&& opt_text(p.default_route_nexthop) == crate::render::group_nexthop(g)
    &&& texts(p.sample_prefixes@) == (texts(g.custom_prefixes@) + texts(g.asn_prefixes@)).take(
        if 10 <= group_prefix_count(g) {
            10
        } else {
            group_prefix_count(g) as int
        },
    )
}

/// The preview of a plan: its counts and, per target, its numbers and up to
/// ten of its prefixes.
pub fn preview_from_plan(plan: &PolicyPlan) -> (r: RoutePolicyPreview)
    requires
        plan_counts_fit(plan.groups@),
    ensures
        r.interface_count == plan.groups.len(),
        r.ipv4_prefix_count == prefix_total(plan.groups@),
        r.groups.len() == plan.groups.len(),
        forall|j: int| 0 <= j < r.groups.len() ==> preview_group_of(#[trigger] r.groups@[j], plan.groups@[j]),
{
    let total = count_prefixes(plan.groups.as_slice());
    let mut groups: Vec<RoutePolicyPreviewGroup> = Vec::new();
    for i in 0..plan.groups.len()
        invariant
            plan_counts_fit(plan.groups@),
            groups.len() == i,
            forall|j: int| 0 <= j < i ==> preview_group_of(#[trigger] groups@[j], plan.groups@[j]),
    {
        let g = &plan.groups[i];
        proof {
            lemma_prefix_total_prefix(plan.groups@, i + 1);
            assert(plan.groups@.take(i + 1).drop_last() == plan.groups@.take(i as int));
            assert(plan.groups@.take(i + 1).last() == *g);
        }
        let count = g.ipv4_prefix_count();
        let p = RoutePolicyPreviewGroup {
            interface: g.interface.clone(),
            device: g.device.clone(),
            table_id: g.table_id,
            mark: g.mark,
            pref: g.pref,
            asn_count: g.asn_count as i64,
            custom_route_count: g.custom_route_count as i64,
            ipv4_prefix_count: count,
            asn_ipv4_prefix_count: g.asn_prefixes.len() as i64,
            custom_ipv4_prefix_count: g.custom_prefixes.len() as i64,
            default_route_nexthop: crate::render::nexthop_of(g),
            sample_prefixes: g.sample_prefixes(10),
        };
        groups.push(p);
    }
    RoutePolicyPreview { interface_count: plan.groups.len() as i64, ipv4_prefix_count: total, groups }
}

/// What applying a plan reports: its targets and prefixes, with no warning.
pub fn plan_stats(plan: &PolicyPlan) -> (r: PolicyStats)
    requires
        plan_counts_fit(plan.groups@),
    ensures
        r.interface_count == plan.groups.len(),
        r.ipv4_prefix_count == prefix_total(plan.groups@),
        r.warning is None,
{
    let total = count_prefixes(plan.groups.as_slice());
    PolicyStats { interface_count: plan.groups.len() as i64, ipv4_prefix_count: total, warning: None }
}

impl PolicyError {
    /// The message shown for the error.
    pub fn message(&self) -> (r: String)
        ensures
            r@ == match self@ {
                PolicyFailure::LanNotFound(n) => "LAN interface '"@ + n + "' was not found"@,
                PolicyFailure::LanNoDevice(n) => "LAN interface '"@ + n + "' does not have an L3 device"@,
                PolicyFailure::GroupNotFound(n) => "interface group '"@ + n + "' was not found"@,
                PolicyFailure::GroupNoActive(n) => "interface group '"@ + n + "' has no active interface"@,
                PolicyFailure::TooManyTargets(c) => "too many target interfaces: "@ + dec(c)
                    + " configured, maximum is "@ + dec(MAX_POLICY_GROUPS as nat),
                PolicyFailure::TargetNotFound(n) => "target interface '"@ + n + "' was not found"@,
                PolicyFailure::TargetNoDevice(n) => "target interface '"@ + n + "' does not have a device"@,
            },
    {
        match self {
            PolicyError::LanNotFound(n) => quoted_message("LAN interface '", n.as_str(), "' was not found"),
            PolicyError::LanNoDevice(n) => quoted_message(
                "LAN interface '",
                n.as_str(),
                "' does not have an L3 device",
            ),
            PolicyError::GroupNotFound(n) => quoted_message("interface group '", n.as_str(), "' was not found"),
            PolicyError::GroupNoActive(n) => quoted_message(
                "interface group '",
                n.as_str(),
                "' has no active interface",
            ),
            PolicyError::TooManyTargets(c) => {
                let mut r = owned("too many target interfaces: ");
                push_decimal(&mut r, *c as u64);
                push_str(&mut r, " configured, maximum is ");
                push_decimal(&mut r, MAX_POLICY_GROUPS as u64);
                r
            },
            PolicyError::TargetNotFound(n) => quoted_message("target interface '", n.as_str(), "' was not found"),
            PolicyError::TargetNoDevice(n) => quoted_message(
                "target interface '",
                n.as_str(),
                "' does not have a device",
            ),
        }
    }
}

fn quoted_message(head: &str, name: &str, tail: &str) -> (r: String)
    ensures
        r@ == head@ + name@ + tail@,
{
    let mut r = owned(head);
    push_str(&mut r, name);
    push_str(&mut r, tail);
    r
}

} // verus!
