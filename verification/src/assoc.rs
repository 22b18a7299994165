//! Small maps keyed by text, held as vectors of pairs with distinct keys.
use vstd::prelude::*;

use crate::text::{chars_of, same_chars};

verus! {

/// The keys of the pairs are pairwise distinct.
pub open spec fn keys_distinct<T>(s: Seq<(String, T)>) -> bool {
    forall|i: int, j: int| 0 <= i < j < s.len() ==> s[i].0@ != s[j].0@
}

/// Whether some pair holds key `k`.
pub open spec fn has_key<T>(s: Seq<(String, T)>, k: Seq<char>) -> bool {
    exists|i: int| 0 <= i < s.len() && s[i].0@ == k
}

/// The map that the pairs stand for.
pub open spec fn assoc_view<T>(s: Seq<(String, T)>) -> Map<Seq<char>, T> {
    Map::new(
        |k: Seq<char>| has_key(s, k),
        |k: Seq<char>| s[choose|i: int| 0 <= i < s.len() && s[i].0@ == k].1,
    )
}

pub proof fn lemma_assoc_at<T>(s: Seq<(String, T)>, j: int)
    requires
        keys_distinct(s),
        0 <= j < s.len(),
    ensures
        assoc_view(s).contains_key(s[j].0@),
        assoc_view(s)[s[j].0@] == s[j].1,
{
    let k = s[j].0@;
    assert(has_key(s, k));
    let i = choose|i: int| 0 <= i < s.len() && s[i].0@ == k;
    assert(i == j);
}

pub proof fn lemma_assoc_push<T>(s: Seq<(String, T)>, key: String, v: T)
    requires
        keys_distinct(s),
        !has_key(s, key@),
    ensures
        keys_distinct(s.push((key, v))),
        assoc_view(s.push((key, v))) == assoc_view(s).insert(key@, v),
{
    let t = s.push((key, v));
    assert forall|k: Seq<char>| #[trigger] has_key(t, k) == (has_key(s, k) || k == key@) by {
        if has_key(s, k) {
            let i = choose|i: int| 0 <= i < s.len() && s[i].0@ == k;
            assert(t[i] == s[i]);
        }
        if k == key@ {
            assert(t[s.len() as int].0@ == k);
        }
    }
    assert forall|k: Seq<char>| #[trigger] has_key(t, k) implies assoc_view(t)[k] == assoc_view(
        s,
    ).insert(key@, v)[k] by {
        if k == key@ {
            lemma_assoc_at(t, s.len() as int);
        } else {
            let i = choose|i: int| 0 <= i < s.len() && s[i].0@ == k;
            assert(t[i] == s[i]);
            lemma_assoc_at(t, i);
            lemma_assoc_at(s, i);
        }
    }
    assert(assoc_view(t) =~= assoc_view(s).insert(key@, v));
}

pub proof fn lemma_assoc_update<T>(s: Seq<(String, T)>, j: int, key: String, v: T)
    requires
        keys_distinct(s),
        0 <= j < s.len(),
        s[j].0@ == key@,
    ensures
        keys_distinct(s.update(j, (key, v))),
        assoc_view(s.update(j, (key, v))) == assoc_view(s).insert(key@, v),
{
    let t = s.update(j, (key, v));
    assert forall|k: Seq<char>| #[trigger] has_key(t, k) == has_key(s, k) by {
        if has_key(s, k) {
            let i = choose|i: int| 0 <= i < s.len() && s[i].0@ == k;
            assert(t[i].0@ == k);
        }
        if has_key(t, k) {
            let i = choose|i: int| 0 <= i < t.len() && t[i].0@ == k;
            assert(s[i].0@ == k);
        }
    }
    assert(has_key(s, key@)) by {
        assert(s[j].0@ == key@);
    }
    assert forall|k: Seq<char>| #[trigger] has_key(t, k) implies assoc_view(t)[k] == assoc_view(
        s,
    ).insert(key@, v)[k] by {
        let i = choose|i: int| 0 <= i < t.len() && t[i].0@ == k;
        lemma_assoc_at(t, i);
        if i != j {
            lemma_assoc_at(s, i);
        }
    }
    assert(assoc_view(t) =~= assoc_view(s).insert(key@, v));
}

/// Pairs with the same keys, in the same order, whose values agree under `f`
/// stand for the same map once `f` is applied to its values.
pub proof fn lemma_assoc_congruent<T, U>(s: Seq<(String, T)>, t: Seq<(String, T)>, f: spec_fn(T) -> U)
    requires
        keys_distinct(s),
        s.len() == t.len(),
        forall|i: int| 0 <= i < s.len() ==> (#[trigger] s[i]).0@ == t[i].0@ && f(s[i].1) == f(t[i].1),
    ensures
        keys_distinct(t),
        assoc_view(s).map_values(f) == assoc_view(t).map_values(f),
{
    assert forall|i: int, j: int| 0 <= i < j < t.len() implies t[i].0@ != t[j].0@ by {
        assert(s[i].0@ == t[i].0@ && s[j].0@ == t[j].0@);
    }
    assert forall|k: Seq<char>| #[trigger] has_key(s, k) == has_key(t, k) by {
        if has_key(s, k) {
            let i = choose|i: int| 0 <= i < s.len() && s[i].0@ == k;
            assert(t[i].0@ == k);
        }
        if has_key(t, k) {
            let i = choose|i: int| 0 <= i < t.len() && t[i].0@ == k;
            assert(s[i].0@ == k);
        }
    }
    assert forall|k: Seq<char>| #[trigger] has_key(s, k) implies assoc_view(s).map_values(f)[k]
        == assoc_view(t).map_values(f)[k] by {
        let i = choose|i: int| 0 <= i < s.len() && s[i].0@ == k;
        lemma_assoc_at(s, i);
        assert(s[i].0@ == t[i].0@);
        lemma_assoc_at(t, i);
    }
    assert(assoc_view(s).map_values(f) =~= assoc_view(t).map_values(f));
}

/// Position of the pair holding `key`, if any.
pub fn assoc_find<T>(v: &Vec<(String, T)>, key: &[char]) -> (r: Option<usize>)
    ensures
        r matches Some(j) ==> j < v.len() && v@[j as int].0@ == key@,
        r is None ==> !has_key(v@, key@),
{
    let mut i: usize = 0;
    while i < v.len()
        invariant
            i <= v.len(),
            forall|k: int| 0 <= k < i ==> v@[k].0@ != key@,
        decreases v.len() - i,
    {
        let name = chars_of(v[i].0.as_str());
        if same_chars(name.as_slice(), key) {
            return Some(i);
        }
        i += 1;
    }
    None
}

} // verus!
