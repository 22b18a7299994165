//! Sorted sequences of distinct texts, in the order of `str`'s `Ord` (the order
//! in which a `BTreeSet<String>` or a `BTreeMap<String, _>` yields its keys).
use vstd::prelude::*;

use crate::text::{compare_chars, lemma_lt_irreflexive, lemma_lt_total, lemma_lt_transitive, seq_lt, views, Order3};

verus! {

/// Strictly increasing: sorted and without repeats.
pub open spec fn sorted_strict(s: Seq<Seq<char>>) -> bool {
    forall|i: int, j: int| 0 <= i < j < s.len() ==> seq_lt(#[trigger] s[i], #[trigger] s[j])
}

pub proof fn lemma_sorted_distinct(s: Seq<Seq<char>>, i: int, j: int)
    requires
        sorted_strict(s),
        0 <= i < s.len(),
        0 <= j < s.len(),
        i != j,
    ensures
        s[i] != s[j],
{
    if i < j {
        assert(seq_lt(s[i], s[j]));
    } else {
        assert(seq_lt(s[j], s[i]));
    }
    lemma_lt_irreflexive(s[i]);
}

/// A strictly increasing sequence has as many elements as its set.
pub proof fn lemma_sorted_set_len(s: Seq<Seq<char>>)
    requires
        sorted_strict(s),
    ensures
        s.to_set().len() == s.len(),
        s.to_set().finite(),
{
    assert forall|i: int, j: int| 0 <= i < s.len() && 0 <= j < s.len() && i != j implies s[i] != s[j] by {
        lemma_sorted_distinct(s, i, j);
    }
    s.unique_seq_to_set();
    vstd::seq_lib::seq_to_set_is_finite(s);
}

/// The elements of a sequence after a push: those before and the pushed one.
pub proof fn lemma_push_to_set<A>(s: Seq<A>, a: A)
    ensures
        s.push(a).to_set() == s.to_set().insert(a),
{
    let t = s.push(a);
    assert forall|x: A| #[trigger] t.to_set().contains(x) == s.to_set().insert(a).contains(x) by {
        if s.contains(x) {
            let i = choose|i: int| 0 <= i < s.len() && s[i] == x;
            assert(t[i] == x);
        }
        if t.contains(x) {
            let i = choose|i: int| 0 <= i < t.len() && t[i] == x;
            if i < s.len() {
                assert(s[i] == x);
            }
        }
        if x == a {
            assert(t[s.len() as int] == a);
        }
    }
    assert(t.to_set() =~= s.to_set().insert(a));
}

/// Where `k` stands among sorted keys: `Ok(pos)` if `keys[pos] == k`, else
/// `Err(pos)` with every key before `pos` below `k` and every key from `pos` above it.
pub fn search_sorted(keys: &Vec<Vec<char>>, k: &[char]) -> (r: Result<usize, usize>)
    requires
        sorted_strict(views(keys@)),
    ensures
        r matches Ok(pos) ==> pos < keys.len() && keys@[pos as int]@ == k@,
        r matches Err(pos) ==> pos <= keys.len() && (forall|j: int|
            0 <= j < pos ==> seq_lt(#[trigger] keys@[j]@, k@)) && (forall|j: int|
            pos <= j < keys.len() ==> seq_lt(k@, #[trigger] keys@[j]@)),
        r is Err ==> !views(keys@).contains(k@),
{
    let mut lo: usize = 0;
    let mut hi: usize = keys.len();
    while lo < hi
        invariant
            lo <= hi <= keys.len(),
            sorted_strict(views(keys@)),
            forall|j: int| 0 <= j < lo ==> seq_lt(#[trigger] keys@[j]@, k@),
            forall|j: int| hi <= j < keys.len() ==> seq_lt(k@, #[trigger] keys@[j]@),
        decreases hi - lo,
    {
        let mid = lo + (hi - lo) / 2;
        let ghost km = keys@[mid as int]@;
        assert(views(keys@)[mid as int] == km);
        match compare_chars(keys[mid].as_slice(), k) {
            Order3::Equal => {
                return Ok(mid);
            },
            Order3::Less => {
                assert forall|j: int| 0 <= j < mid + 1 implies seq_lt(#[trigger] keys@[j]@, k@) by {
                    if j < mid {
                        assert(views(keys@)[j] == keys@[j]@);
                        assert(seq_lt(views(keys@)[j], views(keys@)[mid as int]));
                        lemma_lt_transitive(keys@[j]@, km, k@);
                    }
                }
                lo = mid + 1;
            },
            Order3::Greater => {
                assert forall|j: int| mid <= j < keys.len() implies seq_lt(k@, #[trigger] keys@[j]@) by {
                    if j > mid {
                        assert(views(keys@)[j] == keys@[j]@);
                        assert(seq_lt(views(keys@)[mid as int], views(keys@)[j]));
                        lemma_lt_transitive(k@, km, keys@[j]@);
                    }
                }
                hi = mid;
            },
        }
    }
    assert forall|j: int| 0 <= j < keys.len() implies views(keys@)[j] != k@ by {
        assert(views(keys@)[j] == keys@[j]@);
        if j < lo {
            lemma_lt_total(keys@[j]@, k@);
        } else {
            lemma_lt_total(k@, keys@[j]@);
        }
    }
    Err(lo)
}

/// Inserting a new key at the position that `search_sorted` gives keeps the
/// keys strictly increasing.
pub proof fn lemma_insert_sorted(s: Seq<Seq<char>>, pos: int, k: Seq<char>)
    requires
        sorted_strict(s),
        0 <= pos <= s.len(),
        forall|j: int| 0 <= j < pos ==> seq_lt(#[trigger] s[j], k),
        forall|j: int| pos <= j < s.len() ==> seq_lt(k, #[trigger] s[j]),
    ensures
        sorted_strict(s.insert(pos, k)),
        s.insert(pos, k).to_set() == s.to_set().insert(k),
{
    let t = s.insert(pos, k);
    assert forall|i: int, j: int| 0 <= i < j < t.len() implies seq_lt(#[trigger] t[i], #[trigger] t[j]) by {
        if j < pos {
            assert(t[i] == s[i] && t[j] == s[j]);
        } else if j == pos {
            assert(t[i] == s[i]);
        } else if i < pos {
            assert(t[i] == s[i] && t[j] == s[j - 1]);
            lemma_lt_transitive(s[i], k, s[j - 1]);
        } else if i == pos {
            assert(t[j] == s[j - 1]);
        } else {
            assert(t[i] == s[i - 1] && t[j] == s[j - 1]);
        }
    }
    assert forall|x: Seq<char>| #[trigger] t.contains(x) == s.to_set().insert(k).contains(x) by {
        if t.contains(x) {
            let i = choose|i: int| 0 <= i < t.len() && t[i] == x;
            if i < pos {
                assert(s[i] == x);
            } else if i > pos {
                assert(s[i - 1] == x);
            }
        }
        if s.contains(x) {
            let i = choose|i: int| 0 <= i < s.len() && s[i] == x;
            if i < pos {
                assert(t[i] == x);
            } else {
                assert(t[i + 1] == x);
            }
        }
        if x == k {
            assert(t[pos] == x);
        }
    }
    assert(t.to_set() =~= s.to_set().insert(k));
}

/// The characters of `k`, kept once, in order, in a sorted set of texts.
pub fn insert_sorted(keys: &mut Vec<Vec<char>>, k: Vec<char>) -> (added: bool)
    requires
        sorted_strict(views(old(keys)@)),
    ensures
        sorted_strict(views(final(keys)@)),
        views(final(keys)@).to_set() == views(old(keys)@).to_set().insert(k@),
        added == !views(old(keys)@).contains(k@),
        !added ==> final(keys)@ == old(keys)@,
{
    match search_sorted(keys, k.as_slice()) {
        Ok(pos) => {
            assert(views(keys@)[pos as int] == k@);
            assert(views(keys@).to_set().insert(k@) =~= views(keys@).to_set());
            false
        },
        Err(pos) => {
            let ghost before = views(keys@);
            proof {
                assert forall|j: int| 0 <= j < pos implies seq_lt(#[trigger] before[j], k@) by {
                    assert(before[j] == keys@[j]@);
                }
                assert forall|j: int| pos <= j < before.len() implies seq_lt(k@, #[trigger] before[j]) by {
                    assert(before[j] == keys@[j]@);
                }
                lemma_insert_sorted(before, pos as int, k@);
            }
            let ghost kv = k@;
            keys.insert(pos, k);
            assert(views(keys@) =~= before.insert(pos as int, kv));
            true
        },
    }
}

} // verus!
