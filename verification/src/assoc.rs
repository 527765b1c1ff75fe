//! Association lists read as maps: the first entry with a key gives its value.
use vstd::prelude::*;

verus! {

/// The map that an association list denotes; an earlier entry hides later
/// entries with the same key.
pub open spec fn assoc<K, V>(s: Seq<(K, V)>) -> Map<K, V>
    decreases s.len(),
{
    if s.len() == 0 {
        Map::empty()
    } else {
        let m = assoc(s.drop_last());
        if m.contains_key(s.last().0) {
            m
        } else {
            m.insert(s.last().0, s.last().1)
        }
    }
}

pub open spec fn has_key<K, V>(s: Seq<(K, V)>, k: K) -> bool {
    exists|i: int| 0 <= i < s.len() && (#[trigger] s[i]).0 == k
}

pub proof fn lemma_assoc_absent<K, V>(s: Seq<(K, V)>, k: K)
    requires
        forall|i: int| 0 <= i < s.len() ==> (#[trigger] s[i]).0 != k,
    ensures
        !assoc(s).contains_key(k),
    decreases s.len(),
{
    if s.len() > 0 {
        let t = s.drop_last();
        assert forall|i: int| 0 <= i < t.len() implies (#[trigger] t[i]).0 != k by {
            assert(t[i] == s[i]);
        }
        lemma_assoc_absent(t, k);
        assert(s.last() == s[s.len() - 1]);
    }
}

/// The value of a key is that of its first entry.
pub proof fn lemma_assoc_first<K, V>(s: Seq<(K, V)>, i: int)
    requires
        0 <= i < s.len(),
        forall|j: int| 0 <= j < i ==> (#[trigger] s[j]).0 != s[i].0,
    ensures
        assoc(s).contains_key(s[i].0),
        assoc(s)[s[i].0] == s[i].1,
    decreases s.len(),
{
    let t = s.drop_last();
    if i == s.len() - 1 {
        assert forall|j: int| 0 <= j < t.len() implies (#[trigger] t[j]).0 != s[i].0 by {
            assert(t[j] == s[j]);
        }
        lemma_assoc_absent(t, s[i].0);
    } else {
        assert(t[i] == s[i]);
        assert forall|j: int| 0 <= j < i implies (#[trigger] t[j]).0 != t[i].0 by {
            assert(t[j] == s[j]);
        }
        lemma_assoc_first(t, i);
    }
}

pub proof fn lemma_assoc_contains<K, V>(s: Seq<(K, V)>, k: K)
    ensures
        assoc(s).contains_key(k) == has_key(s, k),
    decreases s.len(),
{
    if has_key(s, k) {
        let i = choose|i: int| 0 <= i < s.len() && (#[trigger] s[i]).0 == k;
        lemma_assoc_has(s, i);
    } else {
        assert forall|i: int| 0 <= i < s.len() implies (#[trigger] s[i]).0 != k by {
            if s[i].0 == k {
                assert(has_key(s, k));
            }
        }
        lemma_assoc_absent(s, k);
    }
}

pub proof fn lemma_assoc_has<K, V>(s: Seq<(K, V)>, i: int)
    requires
        0 <= i < s.len(),
    ensures
        assoc(s).contains_key(s[i].0),
    decreases s.len(),
{
    let t = s.drop_last();
    if i < s.len() - 1 {
        assert(t[i] == s[i]);
        lemma_assoc_has(t, i);
    }
}

pub proof fn lemma_assoc_push_new<K, V>(s: Seq<(K, V)>, k: K, v: V)
    requires
        !has_key(s, k),
    ensures
        assoc(s.push((k, v))) == assoc(s).insert(k, v),
{
    lemma_assoc_contains(s, k);
    assert(s.push((k, v)).drop_last() =~= s);
}

/// Replacing the value in the first entry of a key replaces the map's value.
pub proof fn lemma_assoc_update_first<K, V>(s: Seq<(K, V)>, i: int, v: V)
    requires
        0 <= i < s.len(),
        forall|j: int| 0 <= j < i ==> (#[trigger] s[j]).0 != s[i].0,
    ensures
        assoc(s.update(i, (s[i].0, v))) == assoc(s).insert(s[i].0, v),
    decreases s.len(),
{
    let k = s[i].0;
    let u = s.update(i, (k, v));
    let t = s.drop_last();
    if i == s.len() - 1 {
        assert(u.drop_last() =~= t);
        assert forall|j: int| 0 <= j < t.len() implies (#[trigger] t[j]).0 != k by {
            assert(t[j] == s[j]);
        }
        lemma_assoc_absent(t, k);
        assert(assoc(u) =~= assoc(s).insert(k, v));
    } else {
        assert(u.drop_last() =~= t.update(i, (k, v)));
        assert(t[i] == s[i]);
        assert forall|j: int| 0 <= j < i implies (#[trigger] t[j]).0 != t[i].0 by {
            assert(t[j] == s[j]);
        }
        lemma_assoc_update_first(t, i, v);
        lemma_assoc_has(t, i);
        assert(u.last() == s.last());
        assert(assoc(u) =~= assoc(s).insert(k, v));
    }
}

/// The entries of a list whose key differs from `k`.
pub open spec fn without_key<K, V>(s: Seq<(K, V)>, k: K) -> Seq<(K, V)>
    decreases s.len(),
{
    if s.len() == 0 {
        s
    } else if s.last().0 == k {
        without_key(s.drop_last(), k)
    } else {
        without_key(s.drop_last(), k).push(s.last())
    }
}

pub proof fn lemma_assoc_without_key<K, V>(s: Seq<(K, V)>, k: K)
    ensures
        assoc(without_key(s, k)) == assoc(s).remove(k),
        !has_key(without_key(s, k), k),
    decreases s.len(),
{
    if s.len() == 0 {
        assert(assoc(s).remove(k) =~= assoc(s));
    } else {
        let t = s.drop_last();
        lemma_assoc_without_key(t, k);
        lemma_assoc_contains(without_key(t, k), s.last().0);
        lemma_assoc_contains(t, s.last().0);
        if s.last().0 == k {
            assert(assoc(s).remove(k) =~= assoc(t).remove(k));
        } else {
            let w = without_key(t, k).push(s.last());
            assert(w.drop_last() =~= without_key(t, k));
            assert(assoc(w) =~= assoc(s).remove(k));
            assert forall|i: int| 0 <= i < w.len() implies (#[trigger] w[i]).0 != k by {
                if i < w.len() - 1 {
                    assert(w[i] == without_key(t, k)[i]);
                }
            }
        }
    }
}


/// The position of the first entry with key `k`.
pub open spec fn find_first<K, V>(s: Seq<(K, V)>, k: K) -> Option<int>
    decreases s.len(),
{
    if s.len() == 0 {
        None
    } else {
        match find_first(s.drop_last(), k) {
            Some(i) => Some(i),
            None => if s.last().0 == k {
                Some(s.len() - 1)
            } else {
                None
            },
        }
    }
}

pub proof fn lemma_find_first<K, V>(s: Seq<(K, V)>, k: K, i: int)
    requires
        0 <= i < s.len(),
        s[i].0 == k,
        forall|j: int| 0 <= j < i ==> (#[trigger] s[j]).0 != k,
    ensures
        find_first(s, k) == Some(i),
    decreases s.len(),
{
    let t = s.drop_last();
    if i < s.len() - 1 {
        assert(t[i] == s[i]);
        assert forall|j: int| 0 <= j < i implies (#[trigger] t[j]).0 != k by {
            assert(t[j] == s[j]);
        }
        lemma_find_first(t, k, i);
    } else {
        lemma_find_first_none(t, k);
    }
}

pub proof fn lemma_find_first_none<K, V>(s: Seq<(K, V)>, k: K)
    requires
        forall|j: int| 0 <= j < s.len() ==> (#[trigger] s[j]).0 != k,
    ensures
        find_first(s, k) is None,
    decreases s.len(),
{
    if s.len() > 0 {
        let t = s.drop_last();
        assert forall|j: int| 0 <= j < t.len() implies (#[trigger] t[j]).0 != k by {
            assert(t[j] == s[j]);
        }
        lemma_find_first_none(t, k);
        assert(s.last() == s[s.len() - 1]);
    }
}

/// A key that occurs has a first entry, and `find_first` gives it.
pub proof fn lemma_find_first_some<K, V>(s: Seq<(K, V)>, k: K)
    requires
        has_key(s, k),
    ensures
        find_first(s, k) is Some,
        0 <= find_first(s, k).unwrap() < s.len(),
        s[find_first(s, k).unwrap()].0 == k,
        forall|j: int| 0 <= j < find_first(s, k).unwrap() ==> (#[trigger] s[j]).0 != k,
    decreases s.len(),
{
    let t = s.drop_last();
    if has_key(t, k) {
        lemma_find_first_some(t, k);
        let i = find_first(t, k).unwrap();
        assert(s[i] == t[i]);
        assert forall|j: int| 0 <= j < i implies (#[trigger] s[j]).0 != k by {
            assert(s[j] == t[j]);
        }
    } else {
        assert forall|j: int| 0 <= j < t.len() implies (#[trigger] t[j]).0 != k by {
            if t[j].0 == k {
                assert(has_key(t, k));
            }
        }
        lemma_find_first_none(t, k);
        let i = choose|i: int| 0 <= i < s.len() && (#[trigger] s[i]).0 == k;
        if i < s.len() - 1 {
            assert(t[i] == s[i]);
        }
        assert(s.last() == s[s.len() - 1]);
        assert forall|j: int| 0 <= j < s.len() - 1 implies (#[trigger] s[j]).0 != k by {
            assert(s[j] == t[j]);
        }
    }
}

/// Entries appended after a list without key `k` decide `k` alone.
pub proof fn lemma_assoc_append_absent<K, V>(a: Seq<(K, V)>, b: Seq<(K, V)>, k: K)
    requires
        !has_key(a, k),
    ensures
        assoc(a + b).contains_key(k) == assoc(b).contains_key(k),
        assoc(b).contains_key(k) ==> assoc(a + b)[k] == assoc(b)[k],
    decreases b.len(),
{
    if b.len() == 0 {
        assert(a + b =~= a);
        lemma_assoc_contains(a, k);
    } else {
        let b0 = b.drop_last();
        lemma_assoc_append_absent(a, b0, k);
        assert((a + b).drop_last() =~= a + b0);
        assert((a + b).last() == b.last());
    }
}

/// Two lists with the same values, whose entries have key `k2` exactly
/// where the other's have key `k1`, give `k2` and `k1` the same value.
pub proof fn lemma_assoc_rekey<K, V>(m: Seq<(K, V)>, r: Seq<(K, V)>, k1: K, k2: K)
    requires
        r.len() == m.len(),
        forall|i: int| 0 <= i < m.len() ==> (#[trigger] r[i]).1 == m[i].1 && (r[i].0 == k2 <==> m[i].0 == k1),
    ensures
        assoc(r).contains_key(k2) == assoc(m).contains_key(k1),
        assoc(m).contains_key(k1) ==> assoc(r)[k2] == assoc(m)[k1],
    decreases m.len(),
{
    if m.len() > 0 {
        let m0 = m.drop_last();
        let r0 = r.drop_last();
        assert forall|i: int| 0 <= i < m0.len() implies (#[trigger] r0[i]).1 == m0[i].1 && (r0[i].0
            == k2 <==> m0[i].0 == k1) by {
            assert(r0[i] == r[i]);
            assert(m0[i] == m[i]);
        }
        lemma_assoc_rekey(m0, r0, k1, k2);
        assert(r.last() == r[r.len() - 1]);
        assert(m.last() == m[m.len() - 1]);
    }
}

/// The entries whose key satisfies `keep`, in order.
pub open spec fn keep_keys<K, V>(s: Seq<(K, V)>, keep: spec_fn(K) -> bool) -> Seq<(K, V)>
    decreases s.len(),
{
    if s.len() == 0 {
        s
    } else if keep(s.last().0) {
        keep_keys(s.drop_last(), keep).push(s.last())
    } else {
        keep_keys(s.drop_last(), keep)
    }
}

/// Keeping the entries of some keys keeps exactly those keys of the map.
pub proof fn lemma_assoc_keep_keys<K, V>(s: Seq<(K, V)>, keep: spec_fn(K) -> bool)
    ensures
        assoc(keep_keys(s, keep)) == assoc(s).restrict(assoc(s).dom().filter(keep)),
    decreases s.len(),
{
    if s.len() == 0 {
        assert(assoc(s).restrict(assoc(s).dom().filter(keep)) =~= assoc(s));
    } else {
        let t = s.drop_last();
        lemma_assoc_keep_keys(t, keep);
        let kt = keep_keys(t, keep);
        lemma_assoc_contains(kt, s.last().0);
        lemma_assoc_contains(t, s.last().0);
        if keep(s.last().0) {
            let w = kt.push(s.last());
            assert(w.drop_last() =~= kt);
            assert(assoc(w) =~= assoc(s).restrict(assoc(s).dom().filter(keep)));
        } else {
            assert(assoc(kt) =~= assoc(s).restrict(assoc(s).dom().filter(keep)));
        }
    }
}

pub proof fn lemma_keep_keys_len<K, V>(s: Seq<(K, V)>, keep: spec_fn(K) -> bool)
    ensures
        keep_keys(s, keep).len() <= s.len(),
    decreases s.len(),
{
    if s.len() > 0 {
        lemma_keep_keys_len(s.drop_last(), keep);
    }
}

/// Every entry kept has a key that satisfies `keep`.
pub proof fn lemma_keep_keys_all<K, V>(s: Seq<(K, V)>, keep: spec_fn(K) -> bool)
    ensures
        forall|i: int|
            0 <= i < keep_keys(s, keep).len() ==> keep(#[trigger] keep_keys(s, keep)[i].0),
    decreases s.len(),
{
    if s.len() > 0 {
        let t = s.drop_last();
        lemma_keep_keys_all(t, keep);
        if keep(s.last().0) {
            let w = keep_keys(t, keep);
            assert forall|i: int| 0 <= i < w.push(s.last()).len() implies keep(
                #[trigger] w.push(s.last())[i].0,
            ) by {
                if i < w.len() {
                    assert(w.push(s.last())[i] == w[i]);
                }
            }
        }
    }
}

pub proof fn lemma_without_key_len<K, V>(s: Seq<(K, V)>, k: K)
    ensures
        without_key(s, k).len() <= s.len(),
    decreases s.len(),
{
    if s.len() > 0 {
        lemma_without_key_len(s.drop_last(), k);
    }
}

} // verus!
