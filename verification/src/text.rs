//! Character-level helpers shared by the parsers and renderers: whitespace
//! classes, trimming, splitting, decimal and hexadecimal numbers, and the
//! lexicographic order of strings.
use vstd::prelude::*;

verus! {

// ---------------------------------------------------------------------------
// Building strings
// ---------------------------------------------------------------------------

/// `String::push` of std: appends one character at the end.
#[verifier::external_body]
pub(crate) fn push_char(s: &mut String, c: char)
    ensures
        final(s)@ == old(s)@.push(c),
{
    s.push(c)
}

/// The characters of `s`, in order.
pub fn chars_of(s: &str) -> (v: Vec<char>)
    ensures
        v@ == s@,
{
    let mut v: Vec<char> = Vec::new();
    for c in it: s.chars()
        invariant
            v@ == it.seq().take(it.index() as int),
    {
        v.push(c);
    }
    v
}

/// Appends every character of `v` to `s`.
pub fn push_chars(s: &mut String, v: &[char])
    ensures
        final(s)@ == old(s)@ + v@,
{
    let ghost start = s@;
    for i in 0..v.len()
        invariant
            s@ == start + v@.take(i as int),
    {
        push_char(s, v[i]);
        assert(v@.take(i + 1) == v@.take(i as int).push(v@[i as int]));
    }
    assert(v@.take(v.len() as int) == v@);
}

/// A string holding exactly the characters of `v`.
pub fn string_from(v: &[char]) -> (s: String)
    ensures
        s@ == v@,
{
    let mut s = String::new();
    push_chars(&mut s, v);
    s
}

/// A string holding the characters of `v` from `lo` up to `hi`.
pub fn string_from_range(v: &[char], lo: usize, hi: usize) -> (s: String)
    requires
        lo <= hi <= v.len(),
    ensures
        s@ == v@.subrange(lo as int, hi as int),
{
    let mut s = String::new();
    let mut i = lo;
    while i < hi
        invariant
            lo <= i <= hi <= v.len(),
            s@ == v@.subrange(lo as int, i as int),
        decreases hi - i,
    {
        push_char(&mut s, v[i]);
        assert(v@.subrange(lo as int, i + 1) == v@.subrange(lo as int, i as int).push(v@[i as int]));
        i += 1;
    }
    s
}

/// Owned copy of a string slice.
pub fn owned(s: &str) -> (r: String)
    ensures
        r@ == s@,
{
    s.to_owned()
}

/// Appends a string slice.
pub fn push_str(s: &mut String, t: &str)
    ensures
        final(s)@ == old(s)@ + t@,
{
    s.append(t)
}

// ---------------------------------------------------------------------------
// Character classes
// ---------------------------------------------------------------------------

/// ASCII whitespace as std's `char::is_ascii_whitespace` defines it.
pub open spec fn is_ascii_ws(c: char) -> bool {
    c == ' ' || c == '\t' || c == '\n' || c == '\x0C' || c == '\r'
}

pub fn ascii_ws(c: char) -> (b: bool)
    ensures
        b == is_ascii_ws(c),
{
    c == ' ' || c == '\t' || c == '\n' || c == '\x0C' || c == '\r'
}

/// Unicode `White_Space`, as std's `char::is_whitespace` and `str::trim` use it.
pub open spec fn is_white(c: char) -> bool {
    ('\t' <= c && c <= '\r') || c == ' ' || c == '\u{85}' || c == '\u{A0}' || c == '\u{1680}'
        || ('\u{2000}' <= c && c <= '\u{200A}') || c == '\u{2028}' || c == '\u{2029}'
        || c == '\u{202F}' || c == '\u{205F}' || c == '\u{3000}'
}

pub fn white(c: char) -> (b: bool)
    ensures
        b == is_white(c),
{
    ('\t' <= c && c <= '\r') || c == ' ' || c == '\u{85}' || c == '\u{A0}' || c == '\u{1680}'
        || ('\u{2000}' <= c && c <= '\u{200A}') || c == '\u{2028}' || c == '\u{2029}'
        || c == '\u{202F}' || c == '\u{205F}' || c == '\u{3000}'
}

pub open spec fn is_digit(c: char) -> bool {
    '0' <= c && c <= '9'
}

pub fn digit(c: char) -> (b: bool)
    ensures
        b == is_digit(c),
{
    '0' <= c && c <= '9'
}

pub open spec fn is_alnum(c: char) -> bool {
    is_digit(c) || ('a' <= c && c <= 'z') || ('A' <= c && c <= 'Z')
}

pub fn alnum(c: char) -> (b: bool)
    ensures
        b == is_alnum(c),
{
    digit(c) || ('a' <= c && c <= 'z') || ('A' <= c && c <= 'Z')
}

pub open spec fn all_digits(s: Seq<char>) -> bool {
    forall|i: int| 0 <= i < s.len() ==> is_digit(#[trigger] s[i])
}

/// `char::to_ascii_uppercase`.
pub open spec fn upper(c: char) -> char {
    if 'a' <= c && c <= 'z' {
        (c as u32 - 32) as char
    } else {
        c
    }
}

/// `char::to_ascii_lowercase`.
pub open spec fn lower(c: char) -> char {
    if 'A' <= c && c <= 'Z' {
        (c as u32 + 32) as char
    } else {
        c
    }
}

pub open spec fn upper_seq(s: Seq<char>) -> Seq<char> {
    s.map_values(|c: char| upper(c))
}

pub open spec fn lower_seq(s: Seq<char>) -> Seq<char> {
    s.map_values(|c: char| lower(c))
}

pub fn to_upper(c: char) -> (r: char)
    ensures
        r == upper(c),
{
    if 'a' <= c && c <= 'z' {
        ((c as u8) - 32) as char
    } else {
        c
    }
}

pub fn to_lower(c: char) -> (r: char)
    ensures
        r == lower(c),
{
    if 'A' <= c && c <= 'Z' {
        ((c as u8) + 32) as char
    } else {
        c
    }
}

pub fn upper_all(v: &[char]) -> (r: Vec<char>)
    ensures
        r@ == upper_seq(v@),
{
    let mut r: Vec<char> = Vec::new();
    for i in 0..v.len()
        invariant
            r@ == upper_seq(v@.take(i as int)),
    {
        r.push(to_upper(v[i]));
        assert(upper_seq(v@.take(i + 1)) == upper_seq(v@.take(i as int)).push(upper(v@[i as int])));
    }
    assert(v@.take(v.len() as int) == v@);
    r
}

pub fn lower_all(v: &[char]) -> (r: Vec<char>)
    ensures
        r@ == lower_seq(v@),
{
    let mut r: Vec<char> = Vec::new();
    for i in 0..v.len()
        invariant
            r@ == lower_seq(v@.take(i as int)),
    {
        r.push(to_lower(v[i]));
        assert(lower_seq(v@.take(i + 1)) == lower_seq(v@.take(i as int)).push(lower(v@[i as int])));
    }
    assert(v@.take(v.len() as int) == v@);
    r
}

// ---------------------------------------------------------------------------
// Trimming (`str::trim`)
// ---------------------------------------------------------------------------

/// First position at or after `i` that does not hold whitespace.
pub open spec fn lead_from(s: Seq<char>, i: int) -> int
    decreases s.len() - i,
{
    if 0 <= i < s.len() && is_white(s[i]) {
        lead_from(s, i + 1)
    } else {
        i
    }
}

/// End of the text that remains after removing whitespace before `j`, down to `lo`.
pub open spec fn trail_to(s: Seq<char>, lo: int, j: int) -> int
    decreases j - lo,
{
    if lo < j && j <= s.len() && is_white(s[j - 1]) {
        trail_to(s, lo, j - 1)
    } else {
        j
    }
}

pub open spec fn trim_lo(s: Seq<char>) -> int {
    lead_from(s, 0)
}

pub open spec fn trim_hi(s: Seq<char>) -> int {
    trail_to(s, trim_lo(s), s.len() as int)
}

/// `str::trim`: the text without leading and trailing Unicode whitespace.
pub open spec fn trim(s: Seq<char>) -> Seq<char> {
    s.subrange(trim_lo(s), trim_hi(s))
}

pub proof fn lemma_lead_from(s: Seq<char>, i: int)
    requires
        0 <= i <= s.len(),
    ensures
        i <= lead_from(s, i) <= s.len(),
        forall|k: int| i <= k < lead_from(s, i) ==> is_white(#[trigger] s[k]),
        lead_from(s, i) < s.len() ==> !is_white(s[lead_from(s, i)]),
    decreases s.len() - i,
{
    if i < s.len() && is_white(s[i]) {
        lemma_lead_from(s, i + 1);
    }
}

pub proof fn lemma_trail_to(s: Seq<char>, lo: int, j: int)
    requires
        0 <= lo <= j <= s.len(),
    ensures
        lo <= trail_to(s, lo, j) <= j,
        forall|k: int| trail_to(s, lo, j) <= k < j ==> is_white(#[trigger] s[k]),
        lo < trail_to(s, lo, j) ==> !is_white(s[trail_to(s, lo, j) - 1]),
    decreases j - lo,
{
    if lo < j && is_white(s[j - 1]) {
        lemma_trail_to(s, lo, j - 1);
    }
}

pub proof fn lemma_trim_bounds(s: Seq<char>)
    ensures
        0 <= trim_lo(s) <= trim_hi(s) <= s.len(),
        forall|k: int| 0 <= k < trim_lo(s) ==> is_white(#[trigger] s[k]),
        forall|k: int| trim_hi(s) <= k < s.len() ==> is_white(#[trigger] s[k]),
        trim_lo(s) < trim_hi(s) ==> !is_white(s[trim_lo(s)]) && !is_white(s[trim_hi(s) - 1]),
        trim_lo(s) == trim_hi(s) ==> forall|k: int| 0 <= k < s.len() ==> is_white(#[trigger] s[k]),
{
    lemma_lead_from(s, 0);
    lemma_trail_to(s, trim_lo(s), s.len() as int);
}

/// A text whose first and last characters are not whitespace is its own trim.
pub proof fn lemma_trim_noop(s: Seq<char>)
    requires
        s.len() > 0 ==> !is_white(s[0]) && !is_white(s[s.len() - 1]),
    ensures
        trim(s) == s,
{
    assert(lead_from(s, 0) == 0);
    assert(trail_to(s, 0, s.len() as int) == s.len());
    assert(s.subrange(0, s.len() as int) == s);
}

/// Trimming twice is trimming once.
pub proof fn lemma_trim_idempotent(s: Seq<char>)
    ensures
        trim(trim(s)) == trim(s),
{
    lemma_trim_bounds(s);
    lemma_trim_noop(trim(s));
}

/// Bounds of the trimmed part of `v`.
pub fn trim_bounds(v: &[char]) -> (r: (usize, usize))
    ensures
        r.0 == trim_lo(v@),
        r.1 == trim_hi(v@),
        r.0 <= r.1 <= v.len(),
        v@.subrange(r.0 as int, r.1 as int) == trim(v@),
{
    proof {
        lemma_trim_bounds(v@);
    }
    let mut lo: usize = 0;
    while lo < v.len() && white(v[lo])
        invariant
            lo <= v.len(),
            lead_from(v@, lo as int) == lead_from(v@, 0),
        decreases v.len() - lo,
    {
        lo += 1;
    }
    let mut hi: usize = v.len();
    while hi > lo && white(v[hi - 1])
        invariant
            lo <= hi <= v.len(),
            lo == trim_lo(v@),
            trail_to(v@, lo as int, hi as int) == trail_to(v@, lo as int, v.len() as int),
        decreases hi - lo,
    {
        hi -= 1;
    }
    (lo, hi)
}

/// The trimmed characters of `v`.
pub fn trimmed(v: &[char]) -> (r: Vec<char>)
    ensures
        r@ == trim(v@),
{
    let (lo, hi) = trim_bounds(v);
    let mut r: Vec<char> = Vec::new();
    let mut i = lo;
    while i < hi
        invariant
            lo <= i <= hi <= v.len(),
            r@ == v@.subrange(lo as int, i as int),
        decreases hi - i,
    {
        r.push(v[i]);
        assert(v@.subrange(lo as int, i + 1) == v@.subrange(lo as int, i as int).push(v@[i as int]));
        i += 1;
    }
    r
}

/// `str::trim` followed by `to_string`.
pub fn trim_string(s: &str) -> (r: String)
    ensures
        r@ == trim(s@),
{
    let v = chars_of(s);
    let (lo, hi) = trim_bounds(v.as_slice());
    string_from_range(v.as_slice(), lo, hi)
}

// ---------------------------------------------------------------------------
// Searching and splitting
// ---------------------------------------------------------------------------

/// First position at or after `i` holding `c`.
pub open spec fn pos_from(s: Seq<char>, c: char, i: int) -> Option<int>
    decreases s.len() - i,
{
    if i < 0 || i >= s.len() {
        None
    } else if s[i] == c {
        Some(i)
    } else {
        pos_from(s, c, i + 1)
    }
}

pub open spec fn first_pos(s: Seq<char>, c: char) -> Option<int> {
    pos_from(s, c, 0)
}

pub proof fn lemma_pos_from(s: Seq<char>, c: char, i: int)
    requires
        0 <= i <= s.len(),
    ensures
        pos_from(s, c, i) matches Some(p) ==> i <= p < s.len() && s[p] == c && forall|k: int|
            i <= k < p ==> s[k] != c,
        pos_from(s, c, i) is None ==> forall|k: int| i <= k < s.len() ==> s[k] != c,
    decreases s.len() - i,
{
    if i < s.len() && s[i] != c {
        lemma_pos_from(s, c, i + 1);
    }
}

/// Position of the first `c` in `v`, as `str::split_once` and `str::find` use it.
pub fn find_char(v: &[char], c: char) -> (r: Option<usize>)
    ensures
        r matches Some(p) ==> first_pos(v@, c) == Some(p as int),
        r is None ==> first_pos(v@, c) is None,
        r matches Some(p) ==> p < v.len() && v@[p as int] == c,
        r is None ==> !v@.contains(c),
{
    proof {
        lemma_pos_from(v@, c, 0);
    }
    let mut i: usize = 0;
    while i < v.len()
        invariant
            i <= v.len(),
            pos_from(v@, c, i as int) == pos_from(v@, c, 0),
            forall|k: int| 0 <= k < i ==> v@[k] != c,
        decreases v.len() - i,
    {
        if v[i] == c {
            return Some(i);
        }
        i += 1;
    }
    None
}

/// Whether `p` starts `s`.
pub open spec fn starts_with(s: Seq<char>, p: Seq<char>) -> bool {
    p.len() <= s.len() && s.take(p.len() as int) == p
}

pub fn has_prefix(v: &[char], p: &[char]) -> (b: bool)
    ensures
        b == starts_with(v@, p@),
{
    if p.len() > v.len() {
        return false;
    }
    let mut i: usize = 0;
    while i < p.len()
        invariant
            p.len() <= v.len(),
            i <= p.len(),
            forall|k: int| 0 <= k < i ==> v@[k] == p@[k],
        decreases p.len() - i,
    {
        if v[i] != p[i] {
            return false;
        }
        i += 1;
    }
    assert(v@.take(p.len() as int) == p@);
    true
}

/// The separator classes that the configuration and import parsers split on.
#[derive(Clone, Copy, PartialEq, Eq, Structural)]
pub enum Sep {
    /// `,` or ASCII whitespace.
    CommaOrSpace,
    /// `,`, `;` or ASCII whitespace.
    CommaSemicolonOrSpace,
    /// Unicode whitespace (`split_whitespace`, before empty pieces are dropped).
    White,
    /// One given character.
    Char(char),
}

pub open spec fn is_sep(k: Sep, c: char) -> bool {
    match k {
        Sep::CommaOrSpace => c == ',' || is_ascii_ws(c),
        Sep::CommaSemicolonOrSpace => c == ',' || c == ';' || is_ascii_ws(c),
        Sep::White => is_white(c),
        Sep::Char(d) => c == d,
    }
}

pub fn sep_matches(k: Sep, c: char) -> (b: bool)
    ensures
        b == is_sep(k, c),
{
    match k {
        Sep::CommaOrSpace => c == ',' || ascii_ws(c),
        Sep::CommaSemicolonOrSpace => c == ',' || c == ';' || ascii_ws(c),
        Sep::White => white(c),
        Sep::Char(d) => c == d,
    }
}

/// `str::split` with a character predicate: the pieces between separators,
/// empty ones included; an empty text gives one empty piece.
pub open spec fn split_by(s: Seq<char>, k: Sep) -> Seq<Seq<char>>
    decreases s.len(),
{
    if s.len() == 0 {
        seq![Seq::<char>::empty()]
    } else {
        let prev = split_by(s.drop_last(), k);
        if is_sep(k, s.last()) {
            prev.push(Seq::<char>::empty())
        } else {
            prev.update(prev.len() - 1, prev.last().push(s.last()))
        }
    }
}

pub proof fn lemma_split_by_nonempty(s: Seq<char>, k: Sep)
    ensures
        split_by(s, k).len() >= 1,
    decreases s.len(),
{
    if s.len() > 0 {
        lemma_split_by_nonempty(s.drop_last(), k);
    }
}

pub open spec fn views(v: Seq<Vec<char>>) -> Seq<Seq<char>> {
    v.map_values(|p: Vec<char>| p@)
}

/// The pieces of `v` between separators of class `k`.
pub fn split_chars(v: &[char], k: Sep) -> (r: Vec<Vec<char>>)
    ensures
        views(r@) == split_by(v@, k),
{
    let mut pieces: Vec<Vec<char>> = Vec::new();
    let mut current: Vec<char> = Vec::new();
    for i in 0..v.len()
        invariant
            views(pieces@).push(current@) == split_by(v@.take(i as int), k),
    {
        proof {
            lemma_split_by_nonempty(v@.take(i as int), k);
            assert(v@.take(i + 1).drop_last() == v@.take(i as int));
        }
        let c = v[i];
        if sep_matches(k, c) {
            let done = current;
            pieces.push(done);
            current = Vec::new();
            assert(views(pieces@).push(current@) == split_by(v@.take(i + 1), k));
        } else {
            current.push(c);
            assert(views(pieces@).push(current@) == split_by(v@.take(i + 1), k));
        }
    }
    assert(v@.take(v.len() as int) == v@);
    pieces.push(current);
    assert(views(pieces@) == split_by(v@, k));
    pieces
}

/// Removes one trailing `\r`.
pub open spec fn strip_cr(s: Seq<char>) -> Seq<char> {
    if s.len() > 0 && s.last() == '\r' {
        s.drop_last()
    } else {
        s
    }
}

/// `str::lines`: pieces between `\n`, each followed piece without its trailing
/// `\r`; the text after the last `\n` is a line unless it is empty.
pub open spec fn lines_of(s: Seq<char>) -> Seq<Seq<char>> {
    let p = split_by(s, Sep::Char('\n'));
    let body = p.drop_last().map_values(|l: Seq<char>| strip_cr(l));
    if p.last().len() > 0 {
        body.push(p.last())
    } else {
        body
    }
}

pub fn lines(v: &[char]) -> (r: Vec<Vec<char>>)
    ensures
        views(r@) == lines_of(v@),
{
    let pieces = split_chars(v, Sep::Char('\n'));
    proof {
        lemma_split_by_nonempty(v@, Sep::Char('\n'));
    }
    let n = pieces.len();
    let mut r: Vec<Vec<char>> = Vec::new();
    let ghost p = views(pieces@);
    for i in 0..n - 1
        invariant
            n == pieces.len(),
            n >= 1,
            p == views(pieces@),
            views(r@) == p.take(i as int).map_values(|l: Seq<char>| strip_cr(l)),
    {
        let piece = &pieces[i];
        let mut line: Vec<char> = Vec::new();
        let len = piece.len();
        let keep = if len > 0 && piece[len - 1] == '\r' {
            len - 1
        } else {
            len
        };
        let mut j: usize = 0;
        while j < keep
            invariant
                keep <= piece.len(),
                j <= keep,
                line@ == piece@.take(j as int),
            decreases keep - j,
        {
            line.push(piece[j]);
            assert(piece@.take(j + 1) == piece@.take(j as int).push(piece@[j as int]));
            j += 1;
        }
        assert(line@ == strip_cr(p[i as int]));
        r.push(line);
        assert(p.take(i + 1).map_values(|l: Seq<char>| strip_cr(l)) == p.take(i as int).map_values(
            |l: Seq<char>| strip_cr(l),
        ).push(strip_cr(p[i as int])));
        assert(views(r@) == p.take(i + 1).map_values(|l: Seq<char>| strip_cr(l)));
    }
    assert(p.take(n - 1) == p.drop_last());
    let last = &pieces[n - 1];
    if last.len() > 0 {
        let mut copy: Vec<char> = Vec::new();
        for j in 0..last.len()
            invariant
                copy@ == last@.take(j as int),
        {
            copy.push(last[j]);
            assert(last@.take(j + 1) == last@.take(j as int).push(last@[j as int]));
        }
        assert(last@.take(last.len() as int) == last@);
        r.push(copy);
    }
    r
}

// ---------------------------------------------------------------------------
// Numbers
// ---------------------------------------------------------------------------

pub open spec fn digit_char(d: nat) -> char {
    (d + 48) as char
}

pub open spec fn digit_value(c: char) -> int {
    c as int - 48
}

/// Decimal rendering of `n`, without leading zeros.
pub open spec fn dec(n: nat) -> Seq<char>
    decreases n,
{
    if n < 10 {
        seq![digit_char(n)]
    } else {
        dec(n / 10).push(digit_char(n % 10))
    }
}

/// Lowercase hexadecimal rendering of `n`, without leading zeros.
pub open spec fn hex_char(d: nat) -> char {
    if d < 10 {
        (d + 48) as char
    } else {
        (d + 87) as char
    }
}

pub open spec fn hex(n: nat) -> Seq<char>
    decreases n,
{
    if n < 16 {
        seq![hex_char(n)]
    } else {
        hex(n / 16).push(hex_char(n % 16))
    }
}

/// Value of a run of decimal digits.
pub open spec fn digits_value(s: Seq<char>) -> nat
    decreases s.len(),
{
    if s.len() == 0 {
        0
    } else {
        (digits_value(s.drop_last()) * 10 + digit_value(s.last())) as nat
    }
}

/// `u64::from_str` and its narrower kin: an optional `+`, then at least one
/// ASCII digit, with a value of at most `max`.
pub open spec fn uint_body(s: Seq<char>) -> Seq<char> {
    if s.len() > 0 && s[0] == '+' {
        s.drop_first()
    } else {
        s
    }
}

pub open spec fn parse_uint(s: Seq<char>, max: nat) -> Option<nat> {
    let b = uint_body(s);
    if b.len() > 0 && all_digits(b) && digits_value(b) <= max {
        Some(digits_value(b))
    } else {
        None
    }
}

pub proof fn lemma_dec(n: nat)
    ensures
        dec(n).len() > 0,
        all_digits(dec(n)),
        digits_value(dec(n)) == n,
        n > 0 ==> dec(n)[0] != '0',
        n == 0 ==> dec(n) == seq!['0'],
    decreases n,
{
    if n < 10 {
        assert(seq![digit_char(n)].drop_last() == Seq::<char>::empty());
        assert(digit_value(digit_char(n)) == n);
        assert(digits_value(Seq::<char>::empty()) == 0);
        assert(digits_value(dec(n)) == n);
    }
    if n >= 10 {
        lemma_dec(n / 10);
        let d = dec(n);
        assert(d.drop_last() == dec(n / 10));
        assert(digit_value(digit_char(n % 10)) == n % 10);
        assert(d.last() == digit_char(n % 10));
        assert(digits_value(d) == digits_value(dec(n / 10)) * 10 + digit_value(d.last()));
        assert(digits_value(d) == (n / 10) * 10 + n % 10);
        assert(n == (n / 10) * 10 + n % 10);
        assert(d[0] == dec(n / 10)[0]);
        assert forall|i: int| 0 <= i < d.len() implies is_digit(#[trigger] d[i]) by {
            if i < d.len() - 1 {
                assert(d[i] == dec(n / 10)[i]);
            }
        }
    }
}

pub proof fn lemma_digits_value_push(s: Seq<char>, c: char)
    requires
        is_digit(c),
    ensures
        digits_value(s.push(c)) == digits_value(s) * 10 + digit_value(c),
{
    assert(s.push(c).drop_last() == s);
}


/// Appends the decimal rendering of `n`.
pub fn push_decimal(s: &mut String, n: u64)
    ensures
        final(s)@ == old(s)@ + dec(n as nat),
    decreases n,
{
    if n >= 10 {
        push_decimal(s, n / 10);
    }
    let d = ((n % 10) as u8 + 48) as char;
    push_char(s, d);
    proof {
        if n >= 10 {
            assert(old(s)@ + dec(n as nat) == old(s)@ + dec((n / 10) as nat) + seq![d]);
        }
    }
}

/// Appends the lowercase hexadecimal rendering of `n`.
pub fn push_hex(s: &mut String, n: u64)
    ensures
        final(s)@ == old(s)@ + hex(n as nat),
    decreases n,
{
    if n >= 16 {
        push_hex(s, n / 16);
    }
    let r = n % 16;
    let d = if r < 10 {
        (r as u8 + 48) as char
    } else {
        (r as u8 + 87) as char
    };
    push_char(s, d);
    proof {
        if n >= 16 {
            assert(old(s)@ + hex(n as nat) == old(s)@ + hex((n / 16) as nat) + seq![d]);
        }
    }
}

pub fn decimal(n: u64) -> (s: String)
    ensures
        s@ == dec(n as nat),
{
    let mut s = String::new();
    push_decimal(&mut s, n);
    s
}

/// `u64::from_str` on the characters of `v`.
pub fn parse_u64(v: &[char]) -> (r: Option<u64>)
    ensures
        r matches Some(x) ==> parse_uint(v@, u64::MAX as nat) == Some(x as nat),
        r is None ==> parse_uint(v@, u64::MAX as nat) is None,
{
    let start: usize = if v.len() > 0 && v[0] == '+' {
        1
    } else {
        0
    };
    let ghost b = uint_body(v@);
    assert(b == v@.skip(start as int));
    if start >= v.len() {
        assert(b.len() == 0);
        return None;
    }
    let mut acc: u64 = 0;
    let mut over = false;
    let mut i = start;
    while i < v.len()
        invariant
            start <= i <= v.len(),
            b == uint_body(v@),
            b == v@.skip(start as int),
            all_digits(v@.subrange(start as int, i as int)),
            !over ==> acc == digits_value(v@.subrange(start as int, i as int)),
            over ==> digits_value(v@.subrange(start as int, i as int)) > u64::MAX,
        decreases v.len() - i,
    {
        let c = v[i];
        if !digit(c) {
            assert(b[i - start] == c);
            assert(!all_digits(b));
            return None;
        }
        let ghost before = v@.subrange(start as int, i as int);
        assert(v@.subrange(start as int, i + 1) == before.push(c));
        proof {
            lemma_digits_value_push(before, c);
        }
        let d = (c as u32 - 48) as u64;
        if !over {
            match acc.checked_mul(10) {
                Some(m) => match m.checked_add(d) {
                    Some(a) => {
                        acc = a;
                    },
                    None => {
                        over = true;
                    },
                },
                None => {
                    over = true;
                },
            }
        }
        i += 1;
    }
    assert(v@.subrange(start as int, v.len() as int) == b);
    if over {
        None
    } else {
        Some(acc)
    }
}

// ---------------------------------------------------------------------------
// Lexicographic order (the order of `str`'s `Ord`)
// ---------------------------------------------------------------------------

/// Strict lexicographic order on character sequences, by code point.
pub open spec fn seq_lt(a: Seq<char>, b: Seq<char>) -> bool
    decreases a.len(),
{
    if a.len() == 0 {
        b.len() > 0
    } else if b.len() == 0 {
        false
    } else if a[0] != b[0] {
        a[0] < b[0]
    } else {
        seq_lt(a.drop_first(), b.drop_first())
    }
}

pub proof fn lemma_lt_irreflexive(a: Seq<char>)
    ensures
        !seq_lt(a, a),
    decreases a.len(),
{
    if a.len() > 0 {
        lemma_lt_irreflexive(a.drop_first());
    }
}

pub proof fn lemma_lt_total(a: Seq<char>, b: Seq<char>)
    ensures
        a == b || seq_lt(a, b) || seq_lt(b, a),
        !(seq_lt(a, b) && seq_lt(b, a)),
    decreases a.len(),
{
    if a.len() > 0 && b.len() > 0 && a[0] == b[0] {
        lemma_lt_total(a.drop_first(), b.drop_first());
        if a.drop_first() == b.drop_first() {
            assert(a == seq![a[0]] + a.drop_first());
            assert(b == seq![b[0]] + b.drop_first());
        }
    }
    if a.len() == 0 && b.len() == 0 {
        assert(a == b);
    }
}

pub proof fn lemma_lt_transitive(a: Seq<char>, b: Seq<char>, c: Seq<char>)
    requires
        seq_lt(a, b),
        seq_lt(b, c),
    ensures
        seq_lt(a, c),
    decreases a.len(),
{
    if a.len() > 0 && b.len() > 0 && c.len() > 0 && a[0] == b[0] && b[0] == c[0] {
        lemma_lt_transitive(a.drop_first(), b.drop_first(), c.drop_first());
    }
}

/// Three-way result of comparing two texts.
#[derive(Clone, Copy, PartialEq, Eq, Structural)]
pub enum Order3 {
    Less,
    Equal,
    Greater,
}

/// Compares two character sequences lexicographically.
pub fn compare_chars(a: &[char], b: &[char]) -> (r: Order3)
    ensures
        r == Order3::Less <==> seq_lt(a@, b@),
        r == Order3::Equal <==> a@ == b@,
        r == Order3::Greater <==> seq_lt(b@, a@),
{
    proof {
        lemma_lt_total(a@, b@);
        lemma_lt_irreflexive(a@);
        assert(a@.skip(0) == a@);
        assert(b@.skip(0) == b@);
    }
    let mut i: usize = 0;
    while i < a.len() && i < b.len()
        invariant
            i <= a.len(),
            i <= b.len(),
            a@.take(i as int) == b@.take(i as int),
            seq_lt(a@, b@) == seq_lt(a@.skip(i as int), b@.skip(i as int)),
            seq_lt(b@, a@) == seq_lt(b@.skip(i as int), a@.skip(i as int)),
        decreases a.len() - i,
    {
        assert(a@.skip(i as int)[0] == a@[i as int]);
        assert(b@.skip(i as int)[0] == b@[i as int]);
        if a[i] < b[i] {
            return Order3::Less;
        }
        if b[i] < a[i] {
            return Order3::Greater;
        }
        assert(a@.skip(i as int).drop_first() == a@.skip(i + 1));
        assert(b@.skip(i as int).drop_first() == b@.skip(i + 1));
        assert(a@.take(i + 1) == a@.take(i as int).push(a@[i as int]));
        assert(b@.take(i + 1) == b@.take(i as int).push(b@[i as int]));
        i += 1;
    }
    if a.len() == b.len() {
        assert(a@ == a@.take(i as int));
        assert(b@ == b@.take(i as int));
        Order3::Equal
    } else if a.len() < b.len() {
        assert(a@.skip(i as int).len() == 0);
        assert(a@.len() != b@.len());
        Order3::Less
    } else {
        assert(b@.skip(i as int).len() == 0);
        Order3::Greater
    }
}

/// Whether two character sequences are equal.
pub fn same_chars(a: &[char], b: &[char]) -> (r: bool)
    ensures
        r == (a@ == b@),
{
    compare_chars(a, b) == Order3::Equal
}

/// Whether a string equals the characters `b`.
pub fn str_is(a: &str, b: &[char]) -> (r: bool)
    ensures
        r == (a@ == b@),
{
    let v = chars_of(a);
    same_chars(v.as_slice(), b)
}

/// String equality.
pub fn str_eq(a: &str, b: &str) -> (r: bool)
    ensures
        r == (a@ == b@),
{
    let v = chars_of(a);
    let w = chars_of(b);
    same_chars(v.as_slice(), w.as_slice())
}

} // verus!
