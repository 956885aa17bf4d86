//! Association sequences and their map abstraction.
//!
//! The store's indexes are kept as vectors of key/value pairs whose keys are
//! pairwise distinct. This module gives such a sequence its mathematical
//! reading as a `Map`, together with the lemmas that relate the sequence
//! operations used by the executable code (push, filter) to `Map` insertion
//! and removal.

use vstd::prelude::*;

verus! {

/// No two entries of the sequence share a key.
pub open spec fn distinct_keys<K, V>(s: Seq<(K, V)>) -> bool {
    forall|i: int, j: int| 0 <= i < j < s.len() ==> (#[trigger] s[i]).0 != (#[trigger] s[j]).0
}

/// Some entry of the sequence has key `k`.
pub open spec fn has_key<K, V>(s: Seq<(K, V)>, k: K) -> bool {
    exists|i: int| 0 <= i < s.len() && (#[trigger] s[i]).0 == k
}

/// The map an association sequence stands for: each key present in the
/// sequence is sent to the value it is paired with.
pub open spec fn assoc_map<K, V>(s: Seq<(K, V)>) -> Map<K, V> {
    Map::new(
        |k: K| has_key(s, k),
        |k: K| s[choose|i: int| 0 <= i < s.len() && (#[trigger] s[i]).0 == k].1,
    )
}

/// Each entry's key is in the map and is sent to that entry's value.
pub proof fn lemma_assoc_value<K, V>(s: Seq<(K, V)>, i: int)
    requires
        distinct_keys(s),
        0 <= i < s.len(),
    ensures
        assoc_map(s).contains_key(s[i].0),
        assoc_map(s)[s[i].0] == s[i].1,
{
    assert(has_key(s, s[i].0));
    let j = choose|j: int| 0 <= j < s.len() && (#[trigger] s[j]).0 == s[i].0;
    if i != j {
        assert(s[i].0 != s[j].0);
    }
}

/// The domain of the map is finite and has exactly one element per entry.
pub proof fn lemma_assoc_dom<K, V>(s: Seq<(K, V)>)
    requires
        distinct_keys(s),
    ensures
        assoc_map(s).dom().finite(),
        assoc_map(s).dom().len() == s.len(),
{
    let keys = s.map_values(|e: (K, V)| e.0);
    assert(assoc_map(s).dom() =~= keys.to_set()) by {
        assert forall|k: K| assoc_map(s).dom().contains(k) implies keys.to_set().contains(k) by {
            let i = choose|i: int| 0 <= i < s.len() && (#[trigger] s[i]).0 == k;
            assert(keys[i] == k);
        }
        assert forall|k: K| keys.to_set().contains(k) implies assoc_map(s).dom().contains(k) by {
            let i = choose|i: int| 0 <= i < keys.len() && keys[i] == k;
            assert(s[i].0 == k);
        }
    }
    assert(keys.no_duplicates()) by {
        assert forall|i: int, j: int|
            0 <= i < keys.len() && 0 <= j < keys.len() && i != j implies keys[i] != keys[j] by {
            if i < j {
                assert(s[i].0 != s[j].0);
            } else {
                assert(s[j].0 != s[i].0);
            }
        }
    }
    keys.unique_seq_to_set();
}

/// Appending an entry with a fresh key inserts it into the map.
pub proof fn lemma_assoc_push<K, V>(s: Seq<(K, V)>, k: K, v: V)
    requires
        distinct_keys(s),
        !has_key(s, k),
    ensures
        distinct_keys(s.push((k, v))),
        assoc_map(s.push((k, v))) == assoc_map(s).insert(k, v),
{
    let s2 = s.push((k, v));
    assert forall|i: int, j: int| 0 <= i < j < s2.len() implies (#[trigger] s2[i]).0
        != (#[trigger] s2[j]).0 by {
        if j < s.len() {
            assert(s2[i] == s[i] && s2[j] == s[j]);
        } else {
            assert(s2[j] == (k, v) && s2[i] == s[i]);
            assert(!(0 <= i < s.len() && (#[trigger] s[i]).0 == k));
        }
    }
    assert(assoc_map(s2) =~= assoc_map(s).insert(k, v)) by {
        assert forall|x: K| #[trigger] assoc_map(s2).contains_key(x) implies assoc_map(
            s,
        ).insert(k, v).contains_key(x) by {
            let i = choose|i: int| 0 <= i < s2.len() && (#[trigger] s2[i]).0 == x;
            if i < s.len() {
                assert(s[i].0 == x);
            }
        }
        assert forall|x: K| assoc_map(s).insert(k, v).contains_key(x) implies #[trigger] assoc_map(
            s2,
        ).contains_key(x) by {
            if x == k {
                assert(s2[s.len() as int].0 == x);
            } else {
                let i = choose|i: int| 0 <= i < s.len() && (#[trigger] s[i]).0 == x;
                assert(s2[i].0 == x);
            }
        }
        assert forall|x: K| #[trigger] assoc_map(s2).contains_key(x) implies assoc_map(s2)[x]
            == assoc_map(s).insert(k, v)[x] by {
            if x == k {
                lemma_assoc_value(s2, s.len() as int);
            } else {
                let i = choose|i: int| 0 <= i < s2.len() && (#[trigger] s2[i]).0 == x;
                assert(i < s.len());
                lemma_assoc_value(s2, i);
                lemma_assoc_value(s, i);
            }
        }
    }
}

/// Replacing the value of one entry, key kept, updates the map at that key.
pub proof fn lemma_assoc_update<K, V>(s: Seq<(K, V)>, i: int, v: V)
    requires
        distinct_keys(s),
        0 <= i < s.len(),
    ensures
        distinct_keys(s.update(i, (s[i].0, v))),
        assoc_map(s.update(i, (s[i].0, v))) == assoc_map(s).insert(s[i].0, v),
{
    let k = s[i].0;
    let s2 = s.update(i, (k, v));
    assert forall|a: int, b: int| 0 <= a < b < s2.len() implies (#[trigger] s2[a]).0 != (
    #[trigger] s2[b]).0 by {
        assert(s2[a].0 == s[a].0 && s2[b].0 == s[b].0);
    }
    assert(assoc_map(s2) =~= assoc_map(s).insert(k, v)) by {
        assert forall|x: K| #[trigger] assoc_map(s2).contains_key(x) implies assoc_map(s).insert(
            k,
            v,
        ).contains_key(x) by {
            let j = choose|j: int| 0 <= j < s2.len() && (#[trigger] s2[j]).0 == x;
            assert(s[j].0 == x);
        }
        assert forall|x: K| assoc_map(s).insert(k, v).contains_key(x) implies #[trigger] assoc_map(
            s2,
        ).contains_key(x) by {
            if x == k {
                assert(s2[i].0 == x);
            } else {
                let j = choose|j: int| 0 <= j < s.len() && (#[trigger] s[j]).0 == x;
                assert(s2[j].0 == x);
            }
        }
        assert forall|x: K| #[trigger] assoc_map(s2).contains_key(x) implies assoc_map(s2)[x]
            == assoc_map(s).insert(k, v)[x] by {
            if x == k {
                lemma_assoc_value(s2, i);
            } else {
                let j = choose|j: int| 0 <= j < s2.len() && (#[trigger] s2[j]).0 == x;
                assert(j != i);
                lemma_assoc_value(s2, j);
                lemma_assoc_value(s, j);
            }
        }
    }
}

/// The entries of the sequence whose key differs from `k`, in their
/// original order.
pub open spec fn remove_key_seq<K, V>(s: Seq<(K, V)>, k: K) -> Seq<(K, V)>
    decreases s.len(),
{
    if s.len() == 0 {
        s
    } else {
        let rest = remove_key_seq(s.drop_last(), k);
        if s.last().0 == k {
            rest
        } else {
            rest.push(s.last())
        }
    }
}

/// Unfolds one step of `remove_key_seq` at the back of a sequence.
pub proof fn lemma_remove_key_push<K, V>(s: Seq<(K, V)>, k: K, e: (K, V))
    ensures
        remove_key_seq(s.push(e), k) == if e.0 == k {
            remove_key_seq(s, k)
        } else {
            remove_key_seq(s, k).push(e)
        },
{
    assert(s.push(e).drop_last() =~= s);
    assert(s.push(e).last() == e);
}

/// An entry survives the removal exactly when it was present and its key
/// differs from the removed one.
pub proof fn lemma_remove_key_contains<K, V>(s: Seq<(K, V)>, k: K)
    ensures
        forall|x: (K, V)|
            #[trigger] remove_key_seq(s, k).contains(x) <==> s.contains(x) && x.0 != k,
    decreases s.len(),
{
    if s.len() > 0 {
        lemma_remove_key_contains(s.drop_last(), k);
        let f = remove_key_seq(s, k);
        let frest = remove_key_seq(s.drop_last(), k);
        assert forall|x: (K, V)| #[trigger] f.contains(x) implies s.contains(x) && x.0 != k by {
            let i = choose|i: int| 0 <= i < f.len() && f[i] == x;
            if s.last().0 != k && i == f.len() - 1 {
                assert(s[s.len() - 1] == x);
            } else {
                assert(frest[i] == x);
                assert(frest.contains(x));
                let j = choose|j: int| 0 <= j < s.drop_last().len() && s.drop_last()[j] == x;
                assert(s[j] == x);
            }
        }
        assert forall|x: (K, V)| s.contains(x) && x.0 != k implies #[trigger] f.contains(x) by {
            let i = choose|i: int| 0 <= i < s.len() && s[i] == x;
            if i == s.len() - 1 {
                assert(f[f.len() - 1] == x);
            } else {
                assert(s.drop_last()[i] == x);
                assert(s.drop_last().contains(x));
                assert(frest.contains(x));
                let j = choose|j: int| 0 <= j < frest.len() && frest[j] == x;
                assert(f[j] == x);
            }
        }
    }
}

/// Removal by key preserves key distinctness.
pub proof fn lemma_remove_key_distinct<K, V>(s: Seq<(K, V)>, k: K)
    requires
        distinct_keys(s),
    ensures
        distinct_keys(remove_key_seq(s, k)),
    decreases s.len(),
{
    if s.len() > 0 {
        assert(distinct_keys(s.drop_last())) by {
            assert forall|i: int, j: int|
                0 <= i < j < s.drop_last().len() implies (#[trigger] s.drop_last()[i]).0 != (
            #[trigger] s.drop_last()[j]).0 by {
                assert(s[i] == s.drop_last()[i] && s[j] == s.drop_last()[j]);
            }
        }
        lemma_remove_key_distinct(s.drop_last(), k);
        let frest = remove_key_seq(s.drop_last(), k);
        if s.last().0 != k {
            let f = frest.push(s.last());
            assert forall|i: int, j: int| 0 <= i < j < f.len() implies (#[trigger] f[i]).0 != (
            #[trigger] f[j]).0 by {
                if j < frest.len() {
                    assert(f[i] == frest[i] && f[j] == frest[j]);
                } else {
                    assert(f[j] == s.last());
                    assert(f[i] == frest[i]);
                    assert(frest.contains(frest[i]));
                    lemma_remove_key_contains(s.drop_last(), k);
                    assert(s.drop_last().contains(frest[i]));
                    let l = choose|l: int|
                        0 <= l < s.drop_last().len() && s.drop_last()[l] == frest[i];
                    assert(s[l] == frest[i]);
                    assert(s[l].0 != s[s.len() - 1].0);
                }
            }
        }
    }
}

/// Removal by key preserves the absence of duplicate entries.
pub proof fn lemma_remove_key_no_duplicates<K, V>(s: Seq<(K, V)>, k: K)
    requires
        s.no_duplicates(),
    ensures
        remove_key_seq(s, k).no_duplicates(),
    decreases s.len(),
{
    if s.len() > 0 {
        assert(s.drop_last().no_duplicates()) by {
            assert forall|i: int, j: int|
                0 <= i < s.drop_last().len() && 0 <= j < s.drop_last().len() && i
                    != j implies #[trigger] s.drop_last()[i] != #[trigger] s.drop_last()[j] by {
                assert(s[i] == s.drop_last()[i] && s[j] == s.drop_last()[j]);
            }
        }
        lemma_remove_key_no_duplicates(s.drop_last(), k);
        let frest = remove_key_seq(s.drop_last(), k);
        if s.last().0 != k {
            let f = frest.push(s.last());
            assert forall|i: int, j: int|
                0 <= i < f.len() && 0 <= j < f.len() && i != j implies #[trigger] f[i]
                != #[trigger] f[j] by {
                let full = if i < j { j } else { i };
                let part = if i < j { i } else { j };
                if full == f.len() - 1 {
                    assert(f[full] == s.last());
                    assert(f[part] == frest[part]);
                    assert(frest.contains(frest[part]));
                    lemma_remove_key_contains(s.drop_last(), k);
                    assert(s.drop_last().contains(frest[part]));
                    let l = choose|l: int|
                        0 <= l < s.drop_last().len() && s.drop_last()[l] == frest[part];
                    assert(s[l] == frest[part]);
                    assert(s[l] != s[s.len() - 1]);
                } else {
                    assert(f[i] == frest[i] && f[j] == frest[j]);
                }
            }
        }
    }
}

/// Removing a key from the sequence removes exactly that key from the map.
pub proof fn lemma_assoc_remove<K, V>(s: Seq<(K, V)>, k: K)
    requires
        distinct_keys(s),
    ensures
        distinct_keys(remove_key_seq(s, k)),
        assoc_map(remove_key_seq(s, k)) == assoc_map(s).remove(k),
{
    let f = remove_key_seq(s, k);
    lemma_remove_key_distinct(s, k);
    lemma_remove_key_contains(s, k);
    assert(assoc_map(f) =~= assoc_map(s).remove(k)) by {
        assert forall|x: K| #[trigger] assoc_map(f).contains_key(x) implies assoc_map(s).remove(
            k,
        ).contains_key(x) by {
            let i = choose|i: int| 0 <= i < f.len() && (#[trigger] f[i]).0 == x;
            assert(f.contains(f[i]));
            assert(s.contains(f[i]) && f[i].0 != k);
            let j = choose|j: int| 0 <= j < s.len() && s[j] == f[i];
            assert(s[j].0 == x);
        }
        assert forall|x: K| assoc_map(s).remove(k).contains_key(x) implies #[trigger] assoc_map(
            f,
        ).contains_key(x) by {
            let i = choose|i: int| 0 <= i < s.len() && (#[trigger] s[i]).0 == x;
            assert(s.contains(s[i]) && s[i].0 != k);
            assert(f.contains(s[i]));
            let j = choose|j: int| 0 <= j < f.len() && f[j] == s[i];
            assert(f[j].0 == x);
        }
        assert forall|x: K| #[trigger] assoc_map(f).contains_key(x) implies assoc_map(f)[x]
            == assoc_map(s).remove(k)[x] by {
            let i = choose|i: int| 0 <= i < f.len() && (#[trigger] f[i]).0 == x;
            lemma_assoc_value(f, i);
            assert(f.contains(f[i]));
            assert(s.contains(f[i]));
            let j = choose|j: int| 0 <= j < s.len() && s[j] == f[i];
            lemma_assoc_value(s, j);
        }
    }
}

} // verus!
