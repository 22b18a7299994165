//! IPv4 addresses and prefixes in dotted-decimal notation.
use vstd::prelude::*;

use crate::config::copy_range;
use crate::text::{
    all_digits,
    chars_of,
    dec,
    digits_value,
    find_char,
    first_pos,
    is_digit,
    is_white,
    lemma_dec,
    lemma_pos_from,
    lemma_split_by_nonempty,
    lemma_trim_noop,
    parse_u64,
    parse_uint,
    push_char,
    push_decimal,
    split_by,
    split_chars,
    trim,
    trimmed,
    uint_body,
    views,
    Sep,
};

verus! {

/// One decimal octet as std's IPv4 parser reads it: one to three ASCII digits,
/// no leading zero unless the octet is `0`, and a value of at most 255.
pub open spec fn octet_ok(s: Seq<char>) -> bool {
    1 <= s.len() <= 3 && all_digits(s) && (s.len() == 1 || s[0] != '0') && digits_value(s) <= 255
}

/// The address that a dotted-quad text stands for: exactly four octets
/// separated by `.`, nothing else.
pub open spec fn spec_parse_ipv4(s: Seq<char>) -> Option<nat> {
    let parts = split_by(s, Sep::Char('.'));
    if parts.len() == 4 && octet_ok(parts[0]) && octet_ok(parts[1]) && octet_ok(parts[2]) && octet_ok(
        parts[3],
    ) {
        Some(
            ((digits_value(parts[0]) * 256 + digits_value(parts[1])) * 256 + digits_value(parts[2])) * 256
                + digits_value(parts[3]),
        )
    } else {
        None
    }
}

/// `2` to the power `k`.
pub open spec fn pow2n(k: nat) -> nat
    decreases k,
{
    if k == 0 {
        1
    } else {
        2 * pow2n((k - 1) as nat)
    }
}

/// The network address of `addr` for a prefix length `m`: `addr` rounded down
/// to a multiple of `2^(32 - m)`.
pub open spec fn masked(addr: nat, m: nat) -> nat {
    addr / pow2n((32 - m) as nat) * pow2n((32 - m) as nat)
}

/// Dotted-decimal rendering of a 32-bit address.
pub open spec fn render_ipv4(n: nat) -> Seq<char> {
    dec(n / 16777216 % 256) + seq!['.'] + dec(n / 65536 % 256) + seq!['.'] + dec(n / 256 % 256) + seq!['.']
        + dec(n % 256)
}

/// A prefix in canonical form: the network address, `/`, the length.
pub open spec fn render_prefix(addr: nat, m: nat) -> Seq<char> {
    render_ipv4(masked(addr, m)) + seq!['/'] + dec(m)
}

/// The canonical form of an IPv4 address or prefix: the address with the
/// host bits cleared, `/` and the prefix length (32 when none is given).
pub open spec fn spec_normalize_ipv4_prefix(value: Seq<char>) -> Option<Seq<char>> {
    let v = trim(value);
    let (addr_text, mask) = match first_pos(v, '/') {
        Some(p) => (trim(v.take(p)), parse_uint(trim(v.skip(p + 1)), 255)),
        None => (v, Some(32nat)),
    };
    match mask {
        None => None,
        Some(m) => if m > 32 {
            None
        } else {
            match spec_parse_ipv4(addr_text) {
                None => None,
                Some(a) => Some(render_prefix(a, m)),
            }
        },
    }
}

/// Whether a stored prefix reads as `<address>/<length>` with a length of at most 32.
pub open spec fn spec_is_valid_ipv4_prefix(s: Seq<char>) -> bool {
    match first_pos(s, '/') {
        None => false,
        Some(p) => spec_parse_ipv4(s.take(p)) is Some && (parse_uint(s.skip(p + 1), 255) matches Some(
            m,
        ) && m <= 32),
    }
}

fn octet_value(v: &[char]) -> (r: Option<u64>)
    ensures
        r matches Some(x) ==> octet_ok(v@) && x == digits_value(v@),
        r is None ==> !octet_ok(v@),
{
    if v.len() < 1 || v.len() > 3 {
        return None;
    }
    if v.len() > 1 && v[0] == '0' {
        return None;
    }
    if v[0] == '+' {
        assert(!is_digit(v@[0]));
        return None;
    }
    assert(uint_body(v@) == v@);
    match parse_u64(v) {
        Some(x) => if x <= 255 {
            Some(x)
        } else {
            None
        },
        None => None,
    }
}

/// Parses a dotted-quad IPv4 address.
pub fn parse_ipv4(v: &[char]) -> (r: Option<u64>)
    ensures
        r matches Some(x) ==> spec_parse_ipv4(v@) == Some(x as nat),
        r is None ==> spec_parse_ipv4(v@) is None,
{
    let parts = split_chars(v, Sep::Char('.'));
    if parts.len() != 4 {
        return None;
    }
    assert(views(parts@)[0] == parts@[0]@);
    assert(views(parts@)[1] == parts@[1]@);
    assert(views(parts@)[2] == parts@[2]@);
    assert(views(parts@)[3] == parts@[3]@);
    let a = match octet_value(parts[0].as_slice()) {
        Some(x) => x,
        None => return None,
    };
    let b = match octet_value(parts[1].as_slice()) {
        Some(x) => x,
        None => return None,
    };
    let c = match octet_value(parts[2].as_slice()) {
        Some(x) => x,
        None => return None,
    };
    let d = match octet_value(parts[3].as_slice()) {
        Some(x) => x,
        None => return None,
    };
    Some(((a * 256 + b) * 256 + c) * 256 + d)
}

pub proof fn lemma_pow2n_mono(k: nat, n: nat)
    requires
        k <= n,
    ensures
        1 <= pow2n(k) <= pow2n(n),
    decreases n,
{
    if n > k {
        lemma_pow2n_mono(k, (n - 1) as nat);
    } else {
        lemma_pow2n_pos(k);
    }
}

pub proof fn lemma_pow2n_pos(k: nat)
    ensures
        pow2n(k) >= 1,
    decreases k,
{
    if k > 0 {
        lemma_pow2n_pos((k - 1) as nat);
    }
}

pub proof fn lemma_pow2n_32()
    ensures
        pow2n(32) == 4294967296,
{
    reveal_with_fuel(pow2n, 33);
}

fn pow2_u64(k: u64) -> (p: u64)
    requires
        k <= 32,
    ensures
        p == pow2n(k as nat),
{
    let mut p: u64 = 1;
    let mut i: u64 = 0;
    while i < k
        invariant
            i <= k <= 32,
            p == pow2n(i as nat),
        decreases k - i,
    {
        proof {
            lemma_pow2n_mono((i + 1) as nat, 32);
            lemma_pow2n_32();
            assert(pow2n((i + 1) as nat) == 2 * pow2n(i as nat));
        }
        p = p * 2;
        i += 1;
    }
    p
}

/// Appends the dotted-decimal rendering of `n`.
fn push_ipv4(s: &mut String, n: u64)
    requires
        n < 4294967296,
    ensures
        final(s)@ == old(s)@ + render_ipv4(n as nat),
{
    let ghost start = s@;
    push_decimal(s, n / 16777216 % 256);
    push_char(s, '.');
    push_decimal(s, n / 65536 % 256);
    push_char(s, '.');
    push_decimal(s, n / 256 % 256);
    push_char(s, '.');
    push_decimal(s, n % 256);
    assert(s@ =~= start + render_ipv4(n as nat));
}

fn trimmed_range(v: &[char], lo: usize, hi: usize) -> (r: Vec<char>)
    requires
        lo <= hi <= v.len(),
    ensures
        r@ == trim(v@.subrange(lo as int, hi as int)),
{
    let part = copy_range(v, lo, hi);
    trimmed(part.as_slice())
}

/// Normalizes an IPv4 address or prefix, such as `8.8.8.9/24` to `8.8.8.0/24`
/// and `8.8.8.8` to `8.8.8.8/32`.
pub fn normalize_ipv4_prefix(value: &str) -> (r: Option<String>)
    ensures
        crate::config::opt_text(r) == spec_normalize_ipv4_prefix(value@),
{
    let raw = chars_of(value);
    let v = trimmed(raw.as_slice());
    let (address, mask) = match find_char(v.as_slice(), '/') {
        Some(p) => {
            let a = trimmed_range(v.as_slice(), 0, p);
            let m = trimmed_range(v.as_slice(), p + 1, v.len());
            assert(v@.subrange(0, p as int) == v@.take(p as int));
            assert(v@.subrange(p + 1, v@.len() as int) == v@.skip(p + 1));
            match parse_u64(m.as_slice()) {
                Some(x) => if x <= 255 {
                    (a, x)
                } else {
                    return None;
                },
                None => return None,
            }
        },
        None => {
            let a = copy_range(v.as_slice(), 0, v.len());
            assert(v@.subrange(0, v@.len() as int) == v@);
            (a, 32u64)
        },
    };
    if mask > 32 {
        return None;
    }
    let addr = match parse_ipv4(address.as_slice()) {
        Some(a) => a,
        None => return None,
    };
    proof {
        lemma_pow2n_mono((32 - mask) as nat, 32);
        lemma_pow2n_32();
    }
    let p = pow2_u64(32 - mask);
    proof {
        vstd::arithmetic::div_mod::lemma_fundamental_div_mod(addr as int, p as int);
        vstd::arithmetic::mul::lemma_mul_is_commutative(p as int, (addr / p) as int);
        assert((addr / p) * p <= addr) by {
            vstd::arithmetic::div_mod::lemma_mod_bound(addr as int, p as int);
        }
    }
    let network = (addr / p) * p;
    let mut out = String::new();
    push_ipv4(&mut out, network);
    push_char(&mut out, '/');
    push_decimal(&mut out, mask);
    Some(out)
}

/// Whether a stored prefix is an IPv4 prefix (`<address>/<length>`, length at most 32).
pub fn is_valid_ipv4_prefix(prefix: &str) -> (r: bool)
    ensures
        r == spec_is_valid_ipv4_prefix(prefix@),
{
    let v = chars_of(prefix);
    match find_char(v.as_slice(), '/') {
        None => false,
        Some(p) => {
            let a = copy_range(v.as_slice(), 0, p);
            let m = copy_range(v.as_slice(), p + 1, v.len());
            assert(a@ == v@.take(p as int));
            assert(m@ == v@.skip(p + 1));
            let addr_ok = match parse_ipv4(a.as_slice()) {
                Some(_) => true,
                None => false,
            };
            let mask_ok = match parse_u64(m.as_slice()) {
                Some(x) => x <= 32,
                None => false,
            };
            addr_ok && mask_ok
        },
    }
}


// ---------------------------------------------------------------------------
// Laws
// ---------------------------------------------------------------------------

pub proof fn lemma_split_no_sep(x: Seq<char>, c: char)
    requires
        !x.contains(c),
    ensures
        split_by(x, Sep::Char(c)) == seq![x],
    decreases x.len(),
{
    if x.len() > 0 {
        assert(!x.drop_last().contains(c)) by {
            if x.drop_last().contains(c) {
                let i = choose|i: int| 0 <= i < x.drop_last().len() && x.drop_last()[i] == c;
                assert(x[i] == c);
            }
        }
        lemma_split_no_sep(x.drop_last(), c);
        assert(x.last() != c) by {
            assert(x[x.len() - 1] == x.last());
        }
        assert(x.drop_last().push(x.last()) == x);
    } else {
        assert(x == Seq::<char>::empty());
    }
}

pub proof fn lemma_split_concat(x: Seq<char>, y: Seq<char>, c: char)
    ensures
        split_by(x + seq![c] + y, Sep::Char(c)) == split_by(x, Sep::Char(c)) + split_by(y, Sep::Char(c)),
    decreases y.len(),
{
    let k = Sep::Char(c);
    let z = x + seq![c] + y;
    if y.len() == 0 {
        assert(z.drop_last() == x);
        assert(z.last() == c);
        assert(split_by(y, k) == seq![Seq::<char>::empty()]);
        assert(split_by(x, k).push(Seq::<char>::empty()) == split_by(x, k) + seq![Seq::<char>::empty()]);
    } else {
        lemma_split_concat(x, y.drop_last(), c);
        assert(z.drop_last() == x + seq![c] + y.drop_last());
        assert(z.last() == y.last());
        let a = split_by(x, k);
        let b = split_by(y.drop_last(), k);
        lemma_split_by_nonempty(y.drop_last(), k);
        if y.last() == c {
            assert((a + b).push(Seq::<char>::empty()) == a + b.push(Seq::<char>::empty()));
        } else {
            assert((a + b).update((a + b).len() - 1, (a + b).last().push(y.last())) == a + b.update(
                b.len() - 1,
                b.last().push(y.last()),
            ));
        }
    }
}

pub proof fn lemma_dec_octet(o: nat)
    requires
        o <= 255,
    ensures
        octet_ok(dec(o)),
        !dec(o).contains('.'),
        !dec(o).contains('/'),
        digits_value(dec(o)) == o,
{
    lemma_dec(o);
    if o >= 10 {
        lemma_dec(o / 10);
        if o / 10 >= 10 {
            lemma_dec(o / 100);
            assert(dec(o / 10) == dec(o / 100).push(crate::text::digit_char(o / 10 % 10)));
        }
    }
    lemma_dec_no_punct(o);
}

pub proof fn lemma_dec_no_punct(n: nat)
    ensures
        !dec(n).contains('.'),
        !dec(n).contains('/'),
        !dec(n).contains('+'),
{
    lemma_dec(n);
    if dec(n).contains('.') {
        let i = choose|i: int| 0 <= i < dec(n).len() && dec(n)[i] == '.';
        assert(is_digit(dec(n)[i]));
    }
    if dec(n).contains('/') {
        let i = choose|i: int| 0 <= i < dec(n).len() && dec(n)[i] == '/';
        assert(is_digit(dec(n)[i]));
    }
    if dec(n).contains('+') {
        let i = choose|i: int| 0 <= i < dec(n).len() && dec(n)[i] == '+';
        assert(is_digit(dec(n)[i]));
    }
}

/// The four octets of an address put back together give the address.
pub proof fn lemma_octets_recompose(n: nat)
    requires
        n < 4294967296,
    ensures
        ((n / 16777216 % 256 * 256 + n / 65536 % 256) * 256 + n / 256 % 256) * 256 + n % 256 == n,
{
    assert(((n / 16777216 % 256 * 256 + n / 65536 % 256) * 256 + n / 256 % 256) * 256 + n % 256 == n)
        by (nonlinear_arith)
        requires
            n < 4294967296,
    ;
}

/// Four runs of digits joined by dots hold no slash.
pub proof fn lemma_dotted_no_slash(d1: Seq<char>, d2: Seq<char>, d3: Seq<char>, d4: Seq<char>)
    requires
        !d1.contains('/'),
        !d2.contains('/'),
        !d3.contains('/'),
        !d4.contains('/'),
    ensures
        !(d1 + seq!['.'] + (d2 + seq!['.'] + (d3 + seq!['.'] + d4))).contains('/'),
{
    let r = d1 + seq!['.'] + (d2 + seq!['.'] + (d3 + seq!['.'] + d4));
    if r.contains('/') {
        let i = choose|i: int| 0 <= i < r.len() && r[i] == '/';
        if i < d1.len() {
            assert(d1[i] == '/');
        } else if i == d1.len() {
        } else if i < d1.len() + 1 + d2.len() {
            assert(d2[i - d1.len() - 1] == '/');
        } else if i == d1.len() + 1 + d2.len() {
        } else if i < d1.len() + 2 + d2.len() + d3.len() {
            assert(d3[i - d1.len() - 2 - d2.len()] == '/');
        } else if i == d1.len() + 2 + d2.len() + d3.len() {
        } else {
            assert(d4[i - d1.len() - 3 - d2.len() - d3.len()] == '/');
        }
    }
}

/// Reading back a rendered address gives the address.
#[verifier::rlimit(50)]
pub proof fn lemma_render_parse(n: nat)
    requires
        n < 4294967296,
    ensures
        spec_parse_ipv4(render_ipv4(n)) == Some(n),
        !render_ipv4(n).contains('/'),
        render_ipv4(n).len() > 0,
        is_digit(render_ipv4(n)[0]),
        is_digit(render_ipv4(n).last()),
{
    let o1 = n / 16777216 % 256;
    let o2 = n / 65536 % 256;
    let o3 = n / 256 % 256;
    let o4 = n % 256;
    lemma_dec_octet(o1);
    lemma_dec_octet(o2);
    lemma_dec_octet(o3);
    lemma_dec_octet(o4);
    let d1 = dec(o1);
    let d2 = dec(o2);
    let d3 = dec(o3);
    let d4 = dec(o4);
    let r = render_ipv4(n);
    assert(r == d1 + seq!['.'] + (d2 + seq!['.'] + (d3 + seq!['.'] + d4)));
    assert(split_by(r, Sep::Char('.')) == seq![d1, d2, d3, d4]) by {
        lemma_split_concat(d3, d4, '.');
        lemma_split_concat(d2, d3 + seq!['.'] + d4, '.');
        lemma_split_concat(d1, d2 + seq!['.'] + (d3 + seq!['.'] + d4), '.');
        lemma_split_no_sep(d1, '.');
        lemma_split_no_sep(d2, '.');
        lemma_split_no_sep(d3, '.');
        lemma_split_no_sep(d4, '.');
    }
    lemma_octets_recompose(n);
    lemma_dotted_no_slash(d1, d2, d3, d4);
    assert(r[0] == d1[0]);
    assert(r.last() == d4.last());
    assert(d4.last() == d4[d4.len() - 1]);
}

/// The network address of a prefix is its own network address.
pub proof fn lemma_masked_masked(a: nat, m: nat)
    requires
        m <= 32,
    ensures
        masked(masked(a, m), m) == masked(a, m),
        a < 4294967296 ==> masked(a, m) < 4294967296,
{
    let p = pow2n((32 - m) as nat);
    lemma_pow2n_pos((32 - m) as nat);
    let q = a / p;
    vstd::arithmetic::div_mod::lemma_div_by_multiple(q as int, p as int);
    vstd::arithmetic::div_mod::lemma_fundamental_div_mod(a as int, p as int);
    vstd::arithmetic::mul::lemma_mul_is_commutative(p as int, q as int);
    vstd::arithmetic::div_mod::lemma_mod_bound(a as int, p as int);
}

/// What normalization gives is a valid prefix, and normalizing it again gives
/// it back unchanged.
pub proof fn lemma_normalize_ipv4_prefix_stable(value: Seq<char>)
    requires
        spec_normalize_ipv4_prefix(value) is Some,
    ensures
        spec_is_valid_ipv4_prefix(spec_normalize_ipv4_prefix(value).unwrap()),
        spec_normalize_ipv4_prefix(spec_normalize_ipv4_prefix(value).unwrap()) == spec_normalize_ipv4_prefix(
            value,
        ),
{
    let v = trim(value);
    let (addr_text, mask) = match first_pos(v, '/') {
        Some(p) => (trim(v.take(p)), parse_uint(trim(v.skip(p + 1)), 255)),
        None => (v, Some(32nat)),
    };
    let m = mask.unwrap();
    let a = spec_parse_ipv4(addr_text).unwrap();
    assert(a < 4294967296);
    lemma_masked_masked(a, m);
    let n = masked(a, m);
    lemma_render_parse(n);
    let r = render_ipv4(n);
    let s = r + seq!['/'] + dec(m);
    lemma_dec(m);
    lemma_dec_no_punct(m);
    lemma_pos_from(s, '/', 0);
    assert(s[r.len() as int] == '/');
    assert(first_pos(s, '/') == Some(r.len() as int)) by {
        if first_pos(s, '/') != Some(r.len() as int) {
            let p = first_pos(s, '/').unwrap();
            assert(p < r.len());
            assert(r[p] == '/');
        }
    }
    assert(s.take(r.len() as int) == r);
    assert(s.skip(r.len() as int + 1) == dec(m));
    assert(uint_body(dec(m)) == dec(m)) by {
        assert(dec(m)[0] != '+') by {
            assert(is_digit(dec(m)[0]));
        }
    }
    assert(!is_white(s[0])) by {
        assert(s[0] == r[0]);
    }
    assert(!is_white(s[s.len() - 1])) by {
        assert(s[s.len() - 1] == dec(m)[dec(m).len() - 1]);
        assert(is_digit(dec(m)[dec(m).len() - 1]));
    }
    lemma_trim_noop(s);
    assert(!is_white(r[0]));
    assert(!is_white(r[r.len() - 1])) by {
        assert(r[r.len() - 1] == r.last());
    }
    lemma_trim_noop(r);
    assert(!is_white(dec(m)[0])) by {
        assert(is_digit(dec(m)[0]));
    }
    assert(!is_white(dec(m)[dec(m).len() - 1])) by {
        assert(is_digit(dec(m)[dec(m).len() - 1]));
    }
    lemma_trim_noop(dec(m));
}

/// The address text of a written address or prefix: the trimmed text before
/// `/`, or the whole trimmed text when it has none.
pub open spec fn written_address(value: Seq<char>) -> Seq<char> {
    let v = trim(value);
    match first_pos(v, '/') {
        Some(p) => trim(v.take(p)),
        None => v,
    }
}

/// The prefix length written after `/` (32 when none is written).
pub open spec fn written_length(value: Seq<char>) -> Option<nat> {
    let v = trim(value);
    match first_pos(v, '/') {
        Some(p) => parse_uint(trim(v.skip(p + 1)), 255),
        None => Some(32nat),
    }
}

/// The network address of a prefix text `<address>/<length>`.
pub open spec fn prefix_network(s: Seq<char>) -> Option<nat> {
    match first_pos(s, '/') {
        Some(p) => spec_parse_ipv4(s.take(p)),
        None => None,
    }
}

/// The length of a prefix text `<address>/<length>`.
pub open spec fn prefix_length(s: Seq<char>) -> Option<nat> {
    match first_pos(s, '/') {
        Some(p) => parse_uint(s.skip(p + 1), 255),
        None => None,
    }
}

/// A rendered prefix reads back as its network address and length.
pub proof fn lemma_render_prefix_reads_back(n: nat, m: nat)
    requires
        n < 4294967296,
        m <= 32,
    ensures
        prefix_network(render_ipv4(n) + seq!['/'] + dec(m)) == Some(n),
        prefix_length(render_ipv4(n) + seq!['/'] + dec(m)) == Some(m),
{
    lemma_render_parse(n);
    let r = render_ipv4(n);
    let s = r + seq!['/'] + dec(m);
    lemma_dec(m);
    lemma_dec_no_punct(m);
    lemma_pos_from(s, '/', 0);
    assert(s[r.len() as int] == '/');
    assert(first_pos(s, '/') == Some(r.len() as int)) by {
        if first_pos(s, '/') != Some(r.len() as int) {
            let p = first_pos(s, '/').unwrap();
            assert(p < r.len());
            assert(r[p] == '/');
        }
    }
    assert(s.take(r.len() as int) == r);
    assert(s.skip(r.len() as int + 1) == dec(m));
    assert(uint_body(dec(m)) == dec(m)) by {
        assert(dec(m)[0] != '+') by {
            assert(is_digit(dec(m)[0]));
        }
    }
}

/// The largest value of four octets.
pub proof fn lemma_ipv4_below_2_32(s: Seq<char>)
    requires
        spec_parse_ipv4(s) is Some,
    ensures
        spec_parse_ipv4(s).unwrap() < 4294967296,
{
    let parts = split_by(s, Sep::Char('.'));
    let a = digits_value(parts[0]);
    let b = digits_value(parts[1]);
    let c = digits_value(parts[2]);
    let d = digits_value(parts[3]);
    assert(((a * 256 + b) * 256 + c) * 256 + d < 4294967296) by (nonlinear_arith)
        requires
            a <= 255,
            b <= 255,
            c <= 255,
            d <= 255,
    ;
}

/// Normalizing an address `a` written with length `m` gives the prefix of
/// length `m` whose network address is `a` with its low `32 - m` bits
/// cleared: a multiple of `2^(32 - m)` that is at most `a` and within
/// `2^(32 - m)` of it. Any text with a valid address and a length of at most
/// 32 normalizes.
pub proof fn lemma_normalize_clears_host_bits(value: Seq<char>, a: nat, m: nat)
    requires
        spec_parse_ipv4(written_address(value)) == Some(a),
        written_length(value) == Some(m),
        m <= 32,
    ensures
        spec_normalize_ipv4_prefix(value) is Some,
        prefix_length(spec_normalize_ipv4_prefix(value).unwrap()) == Some(m),
        prefix_network(spec_normalize_ipv4_prefix(value).unwrap()) matches Some(n) && n % pow2n(
            (32 - m) as nat,
        ) == 0 && n <= a && a < n + pow2n((32 - m) as nat),
{
    lemma_ipv4_below_2_32(written_address(value));
    let r = spec_normalize_ipv4_prefix(value).unwrap();
    let pw = pow2n((32 - m) as nat);
    lemma_pow2n_pos((32 - m) as nat);
    lemma_masked_masked(a, m);
    let n = masked(a, m);
    assert(r == render_ipv4(n) + seq!['/'] + dec(m));
    lemma_render_prefix_reads_back(n, m);
    let q = a / pw;
    vstd::arithmetic::div_mod::lemma_fundamental_div_mod(a as int, pw as int);
    vstd::arithmetic::div_mod::lemma_mod_bound(a as int, pw as int);
    vstd::arithmetic::mul::lemma_mul_is_commutative(pw as int, q as int);
    vstd::arithmetic::div_mod::lemma_mod_multiples_basic(q as int, pw as int);
    assert(n == q * pw);
}

} // verus!
