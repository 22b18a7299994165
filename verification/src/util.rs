//! Error messages as stored, and what a sync run covers.
use vstd::prelude::*;

use crate::constants::ERROR_LIMIT;
use crate::text::{owned, push_str};

verus! {

// ---------------------------------------------------------------------------
// Stored error messages
// ---------------------------------------------------------------------------

/// The number of bytes of `c` in UTF-8 (`char::len_utf8`).
pub open spec fn char_len_utf8(c: char) -> nat {
    let n = c as u32;
    if n < 0x80 {
        1
    } else if n < 0x800 {
        2
    } else if n < 0x10000 {
        3
    } else {
        4
    }
}

/// The number of bytes of a text in UTF-8 (`str::len`).
pub open spec fn utf8_len(s: Seq<char>) -> nat
    decreases s.len(),
{
    if s.len() == 0 {
        0
    } else {
        utf8_len(s.drop_last()) + char_len_utf8(s.last())
    }
}

/// The byte length of a prefix grows with the prefix.
pub proof fn lemma_utf8_len_monotone(s: Seq<char>, a: int, b: int)
    requires
        0 <= a <= b <= s.len(),
    ensures
        utf8_len(s.take(a)) <= utf8_len(s.take(b)),
        a < b ==> utf8_len(s.take(a)) < utf8_len(s.take(b)),
    decreases b - a,
{
    if a < b {
        lemma_utf8_len_monotone(s, a, b - 1);
        assert(s.take(b).drop_last() == s.take(b - 1));
    }
}

fn byte_len_of(c: char) -> (r: u64)
    ensures
        r == char_len_utf8(c),
{
    let n = c as u32;
    if n < 0x80 {
        1
    } else if n < 0x800 {
        2
    } else if n < 0x10000 {
        3
    } else {
        4
    }
}

/// An error message as stored: at most `ERROR_LIMIT` bytes, else its first
/// `ERROR_LIMIT` bytes followed by `...`.
#[verifier::loop_isolation(false)]
pub fn truncate_error(message: &str) -> (r: String)
    requires
        utf8_len(message@) > ERROR_LIMIT ==> exists|k: int|
            0 <= k <= message@.len() && #[trigger] utf8_len(message@.take(k)) == ERROR_LIMIT,
    ensures
        utf8_len(message@) <= ERROR_LIMIT ==> r@ == message@,
        utf8_len(message@) > ERROR_LIMIT ==> exists|k: int|
            0 <= k <= message@.len() && #[trigger] utf8_len(message@.take(k)) == ERROR_LIMIT && r@ == message@.take(k)
                + "..."@,
{
    let v = crate::text::chars_of(message);
    let mut bytes: u64 = 0;
    let mut i: usize = 0;
    while i < v.len()
        invariant
            v@ == message@,
            i <= v.len(),
            bytes == utf8_len(v@.take(i as int)),
            bytes <= ERROR_LIMIT,
        decreases v.len() - i,
    {
        let next = bytes + byte_len_of(v[i]);
        assert(v@.take(i + 1).drop_last() == v@.take(i as int));
        if next > ERROR_LIMIT as u64 {
            proof {
                lemma_utf8_len_monotone(v@, i + 1, v@.len() as int);
                assert(v@.take(v@.len() as int) == v@);
                assert(utf8_len(message@) > ERROR_LIMIT);
                let k = choose|k: int| 0 <= k <= message@.len() && #[trigger] utf8_len(message@.take(k)) == ERROR_LIMIT;
                if k > i {
                    lemma_utf8_len_monotone(v@, i + 1, k);
                } else {
                    lemma_utf8_len_monotone(v@, k, i as int);
                }
                assert(bytes == ERROR_LIMIT);
            }
            let mut r = crate::text::string_from_range(v.as_slice(), 0, i);
            assert(v@.subrange(0, i as int) == v@.take(i as int));
            push_str(&mut r, "...");
            return r;
        }
        bytes = next;
        i += 1;
    }
    assert(v@.take(v.len() as int) == v@);
    owned(message)
}

// ---------------------------------------------------------------------------
// Sync runs
// ---------------------------------------------------------------------------

/// Which ASNs a sync run fetches: those never synced, or all.
#[derive(Clone, Copy, Debug, PartialEq, Eq, Structural)]
pub enum SyncMode {
    Missing,
    All,
}

impl SyncMode {
    /// The mode's name, as stored in the sync lock.
    pub fn as_str(self) -> (r: &'static str)
        ensures
            r@ == match self {
                SyncMode::Missing => "missing"@,
                SyncMode::All => "all"@,
            },
    {
        match self {
            SyncMode::Missing => "missing",
            SyncMode::All => "all",
        }
    }
}

/// The ASNs a sync run fetches, in order, from the enabled ASNs each paired
/// with whether it was ever synced: all of them, or those never synced.
pub open spec fn spec_sync_selection(mode: SyncMode, asns: Seq<(String, bool)>) -> Seq<Seq<char>>
    decreases asns.len(),
{
    if asns.len() == 0 {
        Seq::empty()
    } else {
        let prev = spec_sync_selection(mode, asns.drop_last());
        if mode == SyncMode::All || !asns.last().1 {
            prev.push(asns.last().0@)
        } else {
            prev
        }
    }
}

/// The ASNs a sync run fetches.
pub fn select_asns_to_sync(mode: SyncMode, asns: &Vec<(String, bool)>) -> (r: Vec<String>)
    ensures
        crate::config::texts(r@) == spec_sync_selection(mode, asns@),
{
    let mut r: Vec<String> = Vec::new();
    for i in 0..asns.len()
        invariant
            crate::config::texts(r@) == spec_sync_selection(mode, asns@.take(i as int)),
    {
        assert(asns@.take(i + 1).drop_last() == asns@.take(i as int));
        let ghost prev = r@;
        let take = match mode {
            SyncMode::All => true,
            SyncMode::Missing => !asns[i].1,
        };
        if take {
            r.push(asns[i].0.clone());
            assert(crate::config::texts(r@) == crate::config::texts(prev).push(asns@[i as int].0@));
        }
    }
    assert(asns@.take(asns.len() as int) == asns@);
    r
}

} // verus!
