//! Sequences kept in strictly increasing key order: the library's maps.
//!
//! Every keyed collection here is a `Vec` in key order rather than a hash map,
//! so iteration order is a property of the data, never of a hash seed. These
//! are the facts that make such a sequence behave as a map.
use vstd::prelude::*;

use crate::text::{lemma_lex_irreflexive, lemma_lex_transitive, lex_lt};

verus! {

/// Keys in strictly increasing order: sorted, and so without duplicates.
pub open spec fn strictly_sorted(keys: Seq<Seq<char>>) -> bool {
    forall|i: int, j: int| 0 <= i < j < keys.len() ==> lex_lt(#[trigger] keys[i], #[trigger] keys[j])
}

/// Inserting `k` at `i`, where everything before is smaller and everything from
/// `i` on is larger, keeps a strictly sorted sequence strictly sorted.
pub proof fn lemma_sorted_insert(keys: Seq<Seq<char>>, i: int, k: Seq<char>)
    requires
        strictly_sorted(keys),
        0 <= i <= keys.len(),
        forall|j: int| 0 <= j < i ==> lex_lt(#[trigger] keys[j], k),
        i < keys.len() ==> lex_lt(k, keys[i]),
    ensures
        strictly_sorted(keys.insert(i, k)),
{
    let n = keys.insert(i, k);
    assert forall|a: int, b: int| 0 <= a < b < n.len() implies lex_lt(#[trigger] n[a], #[trigger] n[b]) by {
        if b < i {
        } else if b == i {
        } else if a < i {
            lemma_lex_transitive(n[a], k, keys[i]);
            if b - 1 > i {
                lemma_lex_transitive(n[a], keys[i], keys[b - 1]);
            }
        } else if a == i {
            if b - 1 > i {
                lemma_lex_transitive(k, keys[i], keys[b - 1]);
            }
        } else {
        }
    }
}

/// In sorted keys, the count of keys below `k` splits them: everything
/// before it sorts below `k`, nothing from it on does.
pub proof fn lemma_count_below_splits(keys: Seq<Seq<char>>, k: Seq<char>)
    requires
        strictly_sorted(keys),
    ensures
        0 <= count_below(keys, k) <= keys.len(),
        forall|j: int| 0 <= j < count_below(keys, k) ==> lex_lt(#[trigger] keys[j], k),
        forall|j: int| count_below(keys, k) <= j < keys.len() ==> !lex_lt(#[trigger] keys[j], k),
    decreases keys.len(),
{
    if keys.len() > 0 {
        let d = keys.drop_last();
        let n = keys.len() - 1;
        assert(strictly_sorted(d)) by {
            assert forall|a: int, b: int| 0 <= a < b < d.len() implies lex_lt(#[trigger] d[a], #[trigger] d[b]) by {
                assert(d[a] == keys[a] && d[b] == keys[b]);
            }
        }
        lemma_count_below_splits(d, k);
        let c = count_below(d, k);
        if lex_lt(keys[n], k) {
            assert forall|j: int| 0 <= j < d.len() implies lex_lt(#[trigger] d[j], k) by {
                assert(d[j] == keys[j]);
                lemma_lex_transitive(keys[j], keys[n], k);
            }
            assert(c == d.len()) by {
                if c < d.len() {
                    assert(!lex_lt(d[c], k));
                }
            }
            assert forall|j: int| 0 <= j < count_below(keys, k) implies lex_lt(#[trigger] keys[j], k) by {
                if j < n {
                    assert(d[j] == keys[j]);
                }
            }
        } else {
            assert forall|j: int| 0 <= j < count_below(keys, k) implies lex_lt(#[trigger] keys[j], k) by {
                assert(d[j] == keys[j]);
            }
            assert forall|j: int| count_below(keys, k) <= j < keys.len() implies !lex_lt(#[trigger] keys[j], k) by {
                if j < n {
                    assert(d[j] == keys[j]);
                }
            }
        }
    }
}

/// In a strictly sorted sequence a key occurs at most once.
pub proof fn lemma_sorted_unique(keys: Seq<Seq<char>>, i: int, j: int)
    requires
        strictly_sorted(keys),
        0 <= i < keys.len(),
        0 <= j < keys.len(),
        keys[i] == keys[j],
    ensures
        i == j,
{
    if i < j {
        lemma_lex_irreflexive(keys[i]);
    } else if j < i {
        lemma_lex_irreflexive(keys[j]);
    }
}


/// How many keys sort strictly before `k`: where `k` belongs.
pub open spec fn count_below(keys: Seq<Seq<char>>, k: Seq<char>) -> int
    decreases keys.len(),
{
    if keys.len() == 0 {
        0
    } else {
        count_below(keys.drop_last(), k) + if lex_lt(keys.last(), k) {
            1int
        } else {
            0int
        }
    }
}

pub open spec fn has_key(keys: Seq<Seq<char>>, k: Seq<char>) -> bool {
    exists|i: int| 0 <= i < keys.len() && keys[i] == k
}

pub open spec fn key_index(keys: Seq<Seq<char>>, k: Seq<char>) -> int {
    choose|i: int| 0 <= i < keys.len() && keys[i] == k
}

/// `s` with `x` stored under `k`: over the entry already there, or inserted
/// where `k` belongs.
pub open spec fn upsert<T>(s: Seq<T>, keys: Seq<Seq<char>>, k: Seq<char>, x: T) -> Seq<T> {
    if has_key(keys, k) {
        s.update(key_index(keys, k), x)
    } else {
        s.insert(count_below(keys, k), x)
    }
}

/// In sorted keys, the slot a search stops at is the count of smaller keys.
pub proof fn lemma_slot_is_count(keys: Seq<Seq<char>>, k: Seq<char>, i: int)
    requires
        strictly_sorted(keys),
        0 <= i <= keys.len(),
        forall|j: int| 0 <= j < i ==> lex_lt(#[trigger] keys[j], k),
        i < keys.len() ==> !lex_lt(keys[i], k),
    ensures
        count_below(keys, k) == i,
    decreases keys.len(),
{
    if keys.len() > 0 {
        let n = keys.len() - 1;
        let d = keys.drop_last();
        assert(strictly_sorted(d)) by {
            assert forall|a: int, b: int| 0 <= a < b < d.len() implies lex_lt(#[trigger] d[a], #[trigger] d[b]) by {
                assert(d[a] == keys[a] && d[b] == keys[b]);
            }
        }
        if i <= n {
            if i < n {
                if lex_lt(keys[n], k) {
                    lemma_lex_transitive(keys[i], keys[n], k);
                }
            }
            assert(!lex_lt(keys.last(), k));
            lemma_slot_is_count(d, k, i);
        } else {
            assert(lex_lt(keys.last(), k));
            lemma_slot_is_count(d, k, n);
        }
    }
}

pub proof fn lemma_upsert_update<T>(s: Seq<T>, keys: Seq<Seq<char>>, i: int, x: T)
    requires
        strictly_sorted(keys),
        0 <= i < keys.len(),
    ensures
        upsert(s, keys, keys[i], x) == s.update(i, x),
{
    let k = keys[i];
    assert(has_key(keys, k));
    let j = key_index(keys, k);
    lemma_sorted_unique(keys, i, j);
}

pub proof fn lemma_upsert_insert<T>(s: Seq<T>, keys: Seq<Seq<char>>, k: Seq<char>, i: int, x: T)
    requires
        strictly_sorted(keys),
        0 <= i <= keys.len(),
        forall|j: int| 0 <= j < i ==> lex_lt(#[trigger] keys[j], k),
        i < keys.len() ==> lex_lt(k, keys[i]),
    ensures
        upsert(s, keys, k, x) == s.insert(i, x),
        !has_key(keys, k),
{
    if has_key(keys, k) {
        let j = choose|j: int| 0 <= j < keys.len() && keys[j] == k;
        if j < i {
            lemma_lex_irreflexive(k);
        } else {
            if j > i {
                lemma_lex_transitive(k, keys[i], keys[j]);
            }
            lemma_lex_irreflexive(k);
        }
    }
    if i < keys.len() {
        crate::text::lemma_lex_asymmetric(k, keys[i]);
    }
    lemma_slot_is_count(keys, k, i);
}

// ---- integer keys ---------------------------------------------------------------

pub open spec fn increasing(keys: Seq<int>) -> bool {
    forall|i: int, j: int| 0 <= i < j < keys.len() ==> #[trigger] keys[i] < #[trigger] keys[j]
}

pub open spec fn count_below_int(keys: Seq<int>, k: int) -> int
    decreases keys.len(),
{
    if keys.len() == 0 {
        0
    } else {
        count_below_int(keys.drop_last(), k) + if keys.last() < k {
            1int
        } else {
            0int
        }
    }
}

pub proof fn lemma_slot_is_count_int(keys: Seq<int>, k: int, i: int)
    requires
        increasing(keys),
        0 <= i <= keys.len(),
        forall|j: int| 0 <= j < i ==> #[trigger] keys[j] < k,
        i < keys.len() ==> keys[i] >= k,
    ensures
        count_below_int(keys, k) == i,
    decreases keys.len(),
{
    if keys.len() > 0 {
        let n = keys.len() - 1;
        let d = keys.drop_last();
        assert(increasing(d)) by {
            assert forall|a: int, b: int| 0 <= a < b < d.len() implies #[trigger] d[a] < #[trigger] d[b] by {
                assert(d[a] == keys[a] && d[b] == keys[b]);
            }
        }
        if i <= n {
            assert(keys[n] >= k);
            lemma_slot_is_count_int(d, k, i);
        } else {
            assert(keys.last() < k);
            lemma_slot_is_count_int(d, k, n);
        }
    }
}

} // verus!
