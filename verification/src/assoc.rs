//! Key/value lists and their mathematical model.
//!
//! Monitors, profiles, compositor options and environment variables are all
//! stored as lists of `(String, value)` pairs.  Their meaning is the finite
//! map from key to value in which a later entry for a key replaces an earlier
//! one, as `map_of` defines.  The operations here (lookup, upsert, removal,
//! sorting into canonical key order) are specified against that model.

use vstd::prelude::*;

use crate::order::{
    lex_le, lex_lt, lemma_lex_le_trans, lemma_lex_total, lemma_lex_trans, str_eq, str_lt,
};

verus! {

/// The view of a pair list: each key as its character sequence, each value
/// as its own view.
pub open spec fn pview<V: View>(s: Seq<(String, V)>) -> Seq<(Seq<char>, V::V)> {
    s.map_values(|p: (String, V)| (p.0@, p.1@))
}

/// The finite map a pair list denotes: a later entry for a key wins.
pub open spec fn map_of<T>(s: Seq<(Seq<char>, T)>) -> Map<Seq<char>, T>
    decreases s.len(),
{
    if s.len() == 0 {
        Map::empty()
    } else {
        map_of(s.drop_last()).insert(s.last().0, s.last().1)
    }
}

/// No two entries share a key.
pub open spec fn keys_distinct<T>(s: Seq<(Seq<char>, T)>) -> bool {
    forall|i: int, j: int| 0 <= i < j < s.len() ==> s[i].0 != s[j].0
}

/// Some entry carries this key.
pub open spec fn contains_key<T>(s: Seq<(Seq<char>, T)>, k: Seq<char>) -> bool {
    exists|i: int| 0 <= i < s.len() && s[i].0 == k
}

/// Entry keys are in weakly ascending lexicographic order.
pub open spec fn sorted_le_keys<T>(s: Seq<(Seq<char>, T)>) -> bool {
    forall|i: int, j: int| 0 <= i < j < s.len() ==> lex_le(s[i].0, s[j].0)
}

/// Entry keys are in strictly ascending lexicographic order.
pub open spec fn sorted_lt_keys<T>(s: Seq<(Seq<char>, T)>) -> bool {
    forall|i: int, j: int| 0 <= i < j < s.len() ==> lex_lt(s[i].0, s[j].0)
}

/// The keys of the denoted map are exactly the keys of the entries.
pub proof fn lemma_map_of_dom<T>(s: Seq<(Seq<char>, T)>)
    ensures
        forall|k: Seq<char>| #[trigger] map_of(s).contains_key(k) <==> contains_key(s, k),
    decreases s.len(),
{
    if s.len() > 0 {
        let t = s.drop_last();
        lemma_map_of_dom(t);
        assert forall|k: Seq<char>| contains_key(s, k) implies map_of(s).contains_key(k) by {
            let i = choose|i: int| 0 <= i < s.len() && s[i].0 == k;
            if i < s.len() - 1 {
                assert(t[i] == s[i]);
                assert(contains_key(t, k));
                assert(map_of(t).contains_key(k));
            } else {
                assert(s.last().0 == k);
            }
        }
        assert forall|k: Seq<char>| #[trigger] map_of(s).contains_key(k) implies contains_key(
            s,
            k,
        ) by {
            if k != s.last().0 {
                assert(map_of(t).contains_key(k));
                assert(contains_key(t, k));
                let i = choose|i: int| 0 <= i < t.len() && t[i].0 == k;
                assert(s[i] == t[i]);
            } else {
                assert(s[s.len() - 1].0 == k);
            }
        }
    }
}

/// With distinct keys, every entry is reflected verbatim in the map.
pub proof fn lemma_map_of_get_distinct<T>(s: Seq<(Seq<char>, T)>, i: int)
    requires
        keys_distinct(s),
        0 <= i < s.len(),
    ensures
        map_of(s).contains_key(s[i].0),
        map_of(s)[s[i].0] == s[i].1,
    decreases s.len(),
{
    if i == s.len() - 1 {
    } else {
        assert(s.drop_last()[i] == s[i]);
        lemma_map_of_get_distinct(s.drop_last(), i);
        assert(s.last().0 != s[i].0);
    }
}

/// A key/value pair read from the map occurs as an entry.
pub proof fn lemma_map_of_get_to_entry<T>(s: Seq<(Seq<char>, T)>, k: Seq<char>)
    requires
        map_of(s).contains_key(k),
    ensures
        exists|i: int| 0 <= i < s.len() && s[i] == (k, map_of(s)[k]),
    decreases s.len(),
{
    if s.len() > 0 {
        if k == s.last().0 {
            assert(s[s.len() - 1] == (k, map_of(s)[k]));
        } else {
            lemma_map_of_get_to_entry(s.drop_last(), k);
            let i = choose|i: int|
                0 <= i < s.drop_last().len() && s.drop_last()[i] == (k, map_of(s.drop_last())[k]);
            assert(s[i] == (k, map_of(s)[k]));
        }
    }
}

/// Two lists with distinct keys and the same entries (as a set) denote the
/// same map.
pub proof fn lemma_entries_same_map<T>(s1: Seq<(Seq<char>, T)>, s2: Seq<(Seq<char>, T)>)
    requires
        keys_distinct(s1),
        keys_distinct(s2),
        forall|p: (Seq<char>, T)| s1.contains(p) <==> s2.contains(p),
    ensures
        map_of(s1) == map_of(s2),
{
    lemma_map_of_dom(s1);
    lemma_map_of_dom(s2);
    assert forall|k: Seq<char>| #[trigger] map_of(s1).contains_key(k) implies map_of(
        s2,
    ).contains_key(k) && map_of(s2)[k] == map_of(s1)[k] by {
        lemma_map_of_get_to_entry(s1, k);
        let i = choose|i: int| 0 <= i < s1.len() && s1[i] == (k, map_of(s1)[k]);
        assert(s1.contains(s1[i]));
        assert(s2.contains(s1[i]));
        let j = choose|j: int| 0 <= j < s2.len() && s2[j] == s1[i];
        lemma_map_of_get_distinct(s2, j);
    }
    assert forall|k: Seq<char>| #[trigger] map_of(s2).contains_key(k) implies map_of(
        s1,
    ).contains_key(k) by {
        lemma_map_of_get_to_entry(s2, k);
        let j = choose|j: int| 0 <= j < s2.len() && s2[j] == (k, map_of(s2)[k]);
        assert(s2.contains(s2[j]));
        assert(s1.contains(s2[j]));
        let i = choose|i: int| 0 <= i < s1.len() && s1[i] == s2[j];
        lemma_map_of_get_distinct(s1, i);
    }
    assert(map_of(s1) =~= map_of(s2));
}

/// Places one entry into a key-sorted list, before the first entry whose key
/// is not smaller.
pub open spec fn insert_sorted<T>(s: Seq<(Seq<char>, T)>, p: (Seq<char>, T)) -> Seq<
    (Seq<char>, T),
>
    decreases s.len(),
{
    if s.len() == 0 {
        seq![p]
    } else if lex_lt(s[0].0, p.0) {
        seq![s[0]] + insert_sorted(s.skip(1), p)
    } else {
        seq![p] + s
    }
}

/// The canonical key-sorted form of a list: the same entries, in weakly
/// ascending key order.
pub open spec fn canon<T>(s: Seq<(Seq<char>, T)>) -> Seq<(Seq<char>, T)>
    decreases s.len(),
{
    if s.len() == 0 {
        Seq::empty()
    } else {
        insert_sorted(canon(s.drop_last()), s.last())
    }
}

/// `insert_sorted` adds exactly the given entry.
pub proof fn lemma_insert_sorted_entries<T>(s: Seq<(Seq<char>, T)>, p: (Seq<char>, T))
    ensures
        insert_sorted(s, p).len() == s.len() + 1,
        forall|x: (Seq<char>, T)|
            #[trigger] insert_sorted(s, p).contains(x) <==> s.contains(x) || x == p,
    decreases s.len(),
{
    if s.len() == 0 {
        let r = insert_sorted(s, p);
        assert(r == seq![p]);
        assert forall|x: (Seq<char>, T)| #[trigger] r.contains(x) implies x == p by {
            let i = choose|i: int| 0 <= i < r.len() && r[i] == x;
        }
        assert(r[0] == p && r.contains(p));
    } else if lex_lt(s[0].0, p.0) {
        lemma_insert_sorted_entries(s.skip(1), p);
        let r = insert_sorted(s, p);
        assert(r == seq![s[0]] + insert_sorted(s.skip(1), p));
        assert forall|x: (Seq<char>, T)| #[trigger] r.contains(x) implies s.contains(x) || x
            == p by {
            let i = choose|i: int| 0 <= i < r.len() && r[i] == x;
            if i == 0 {
                assert(s[0] == x);
            } else {
                assert(insert_sorted(s.skip(1), p).contains(x));
                if s.skip(1).contains(x) {
                    let j = choose|j: int| 0 <= j < s.skip(1).len() && s.skip(1)[j] == x;
                    assert(s[j + 1] == x);
                }
            }
        }
        assert forall|x: (Seq<char>, T)| s.contains(x) || x == p implies #[trigger] r.contains(
            x,
        ) by {
            if s.contains(x) {
                let i = choose|i: int| 0 <= i < s.len() && s[i] == x;
                if i == 0 {
                    assert(r[0] == x);
                } else {
                    assert(s.skip(1)[i - 1] == x);
                    assert(insert_sorted(s.skip(1), p).contains(x));
                    let j = choose|j: int|
                        0 <= j < insert_sorted(s.skip(1), p).len() && insert_sorted(s.skip(1), p)[j]
                            == x;
                    assert(r[j + 1] == x);
                }
            } else {
                assert(insert_sorted(s.skip(1), p).contains(x));
                let j = choose|j: int|
                    0 <= j < insert_sorted(s.skip(1), p).len() && insert_sorted(s.skip(1), p)[j]
                        == x;
                assert(r[j + 1] == x);
            }
        }
    } else {
        let r = insert_sorted(s, p);
        assert(r == seq![p] + s);
        assert forall|x: (Seq<char>, T)| s.contains(x) || x == p implies #[trigger] r.contains(
            x,
        ) by {
            if s.contains(x) {
                let i = choose|i: int| 0 <= i < s.len() && s[i] == x;
                assert(r[i + 1] == x);
            } else {
                assert(r[0] == x);
            }
        }
        assert forall|x: (Seq<char>, T)| #[trigger] r.contains(x) implies s.contains(x) || x
            == p by {
            let i = choose|i: int| 0 <= i < r.len() && r[i] == x;
            if i > 0 {
                assert(s[i - 1] == x);
            }
        }
    }
}

/// `insert_sorted` keeps the list key-sorted.
pub proof fn lemma_insert_sorted_sorted<T>(s: Seq<(Seq<char>, T)>, p: (Seq<char>, T))
    requires
        sorted_le_keys(s),
    ensures
        sorted_le_keys(insert_sorted(s, p)),
    decreases s.len(),
{
    if s.len() == 0 {
    } else if lex_lt(s[0].0, p.0) {
        assert(forall|i: int, j: int|
            0 <= i < j < s.skip(1).len() ==> lex_le(s.skip(1)[i].0, s.skip(1)[j].0));
        lemma_insert_sorted_sorted(s.skip(1), p);
        lemma_insert_sorted_entries(s.skip(1), p);
        let t = insert_sorted(s.skip(1), p);
        let r = seq![s[0]] + t;
        assert forall|i: int, j: int| 0 <= i < j < r.len() implies lex_le(r[i].0, r[j].0) by {
            if i == 0 {
                assert(t.contains(t[j - 1]));
                if s.skip(1).contains(t[j - 1]) {
                    let m = choose|m: int| 0 <= m < s.skip(1).len() && s.skip(1)[m] == t[j - 1];
                    assert(lex_le(s[0].0, s[m + 1].0));
                } else {
                    assert(t[j - 1] == p);
                }
            } else {
                assert(lex_le(t[i - 1].0, t[j - 1].0));
            }
        }
    } else {
        lemma_lex_total(s[0].0, p.0);
        let r = seq![p] + s;
        assert forall|i: int, j: int| 0 <= i < j < r.len() implies lex_le(r[i].0, r[j].0) by {
            if i == 0 {
                assert(lex_le(p.0, s[0].0));
                if j > 1 {
                    assert(lex_le(s[0].0, s[j - 1].0));
                    lemma_lex_le_trans(p.0, s[0].0, s[j - 1].0);
                }
            } else {
                assert(lex_le(s[i - 1].0, s[j - 1].0));
            }
        }
    }
}

/// The canonical form holds exactly the original entries.
pub proof fn lemma_canon_entries<T>(s: Seq<(Seq<char>, T)>)
    ensures
        canon(s).len() == s.len(),
        forall|x: (Seq<char>, T)| #[trigger] canon(s).contains(x) <==> s.contains(x),
    decreases s.len(),
{
    if s.len() > 0 {
        let t = s.drop_last();
        lemma_canon_entries(t);
        lemma_insert_sorted_entries(canon(t), s.last());
        assert forall|x: (Seq<char>, T)| #[trigger] canon(s).contains(x) implies s.contains(x) by {
            if canon(t).contains(x) {
                let i = choose|i: int| 0 <= i < t.len() && t[i] == x;
                assert(s[i] == x);
            } else {
                assert(s[s.len() - 1] == x);
            }
        }
        assert forall|x: (Seq<char>, T)| s.contains(x) implies #[trigger] canon(s).contains(x) by {
            let i = choose|i: int| 0 <= i < s.len() && s[i] == x;
            if i < s.len() - 1 {
                assert(t[i] == x);
                assert(canon(t).contains(x));
            } else {
                assert(x == s.last());
            }
        }
    }
}

/// The canonical form is key-sorted.
pub proof fn lemma_canon_sorted<T>(s: Seq<(Seq<char>, T)>)
    ensures
        sorted_le_keys(canon(s)),
    decreases s.len(),
{
    if s.len() > 0 {
        lemma_canon_sorted(s.drop_last());
        lemma_insert_sorted_sorted(canon(s.drop_last()), s.last());
    }
}

/// Distinct keys survive canonical sorting.
pub proof fn lemma_canon_distinct<T>(s: Seq<(Seq<char>, T)>)
    requires
        keys_distinct(s),
    ensures
        keys_distinct(canon(s)),
    decreases s.len(),
{
    if s.len() > 0 {
        let t = s.drop_last();
        assert(forall|i: int, j: int| 0 <= i < j < t.len() ==> t[i].0 != t[j].0);
        lemma_canon_distinct(t);
        lemma_canon_entries(t);
        lemma_insert_sorted_entries(canon(t), s.last());
        let r = canon(s);
        assert(r == insert_sorted(canon(t), s.last()));
        lemma_canon_no_dup(s);
        assert forall|i: int, j: int| 0 <= i < j < r.len() implies r[i].0 != r[j].0 by {
            assert(insert_sorted(canon(t), s.last()).contains(r[i]));
            assert(insert_sorted(canon(t), s.last()).contains(r[j]));
            assert(r[i] != r[j]);
            if r[i] == s.last() {
                assert(canon(t).contains(r[j]));
                assert(t.contains(r[j]));
                let m = choose|m: int| 0 <= m < t.len() && t[m] == r[j];
                assert(s[m] == r[j]);
                assert(s[m].0 != s.last().0);
            } else if r[j] == s.last() {
                assert(canon(t).contains(r[i]));
                assert(t.contains(r[i]));
                let m = choose|m: int| 0 <= m < t.len() && t[m] == r[i];
                assert(s[m] == r[i]);
                assert(s[m].0 != s.last().0);
            } else {
                assert(canon(t).contains(r[i]));
                assert(canon(t).contains(r[j]));
                assert(t.contains(r[i]));
                assert(t.contains(r[j]));
                let m = choose|m: int| 0 <= m < t.len() && t[m] == r[i];
                let n = choose|n: int| 0 <= n < t.len() && t[n] == r[j];
                if m == n {
                    assert(r[i] == r[j]);
                } else {
                    assert(t[m].0 != t[n].0);
                }
            }
        }
    }
}

/// With distinct keys the canonical form has no repeated entries.
proof fn lemma_canon_no_dup<T>(s: Seq<(Seq<char>, T)>)
    requires
        keys_distinct(s),
    ensures
        canon(s).no_duplicates(),
    decreases s.len(),
{
    if s.len() > 0 {
        let t = s.drop_last();
        assert(forall|i: int, j: int| 0 <= i < j < t.len() ==> t[i].0 != t[j].0);
        lemma_canon_no_dup(t);
        lemma_canon_entries(t);
        assert(!canon(t).contains(s.last())) by {
            if canon(t).contains(s.last()) {
                assert(t.contains(s.last()));
                let m = choose|m: int| 0 <= m < t.len() && t[m] == s.last();
                assert(s[m].0 != s.last().0);
            }
        }
        lemma_insert_sorted_no_dup(canon(t), s.last());
    }
}

/// Inserting an entry the list does not hold keeps it free of repeats.
proof fn lemma_insert_sorted_no_dup<T>(s: Seq<(Seq<char>, T)>, p: (Seq<char>, T))
    requires
        s.no_duplicates(),
        !s.contains(p),
    ensures
        insert_sorted(s, p).no_duplicates(),
    decreases s.len(),
{
    lemma_insert_sorted_entries(s, p);
    if s.len() == 0 {
    } else if lex_lt(s[0].0, p.0) {
        assert(s.skip(1).no_duplicates());
        assert(!s.skip(1).contains(p)) by {
            if s.skip(1).contains(p) {
                let m = choose|m: int| 0 <= m < s.skip(1).len() && s.skip(1)[m] == p;
                assert(s[m + 1] == p);
            }
        }
        lemma_insert_sorted_no_dup(s.skip(1), p);
        lemma_insert_sorted_entries(s.skip(1), p);
        let t = insert_sorted(s.skip(1), p);
        let r = seq![s[0]] + t;
        assert forall|i: int, j: int| 0 <= i < j < r.len() implies r[i] != r[j] by {
            if i == 0 {
                assert(insert_sorted(s.skip(1), p).contains(t[j - 1]));
                if s.skip(1).contains(t[j - 1]) {
                    let m = choose|m: int| 0 <= m < s.skip(1).len() && s.skip(1)[m] == t[j - 1];
                    assert(s[m + 1] == t[j - 1]);
                    assert(s[0] != s[m + 1]);
                } else {
                    assert(t[j - 1] == p);
                    assert(s.contains(s[0]));
                }
            } else {
                assert(t[i - 1] != t[j - 1]);
            }
        }
    } else {
        let r = seq![p] + s;
        assert forall|i: int, j: int| 0 <= i < j < r.len() implies r[i] != r[j] by {
            if i == 0 {
                assert(s.contains(s[j - 1]));
            } else {
                assert(s[i - 1] != s[j - 1]);
            }
        }
    }
}

/// With distinct keys, canonical sorting preserves the denoted map.
pub proof fn lemma_canon_map_of<T>(s: Seq<(Seq<char>, T)>)
    requires
        keys_distinct(s),
    ensures
        map_of(canon(s)) == map_of(s),
{
    lemma_canon_distinct(s);
    lemma_canon_entries(s);
    lemma_entries_same_map(canon(s), s);
}

/// A strictly key-sorted list is the only strictly key-sorted list denoting
/// its map: listing a map in ascending key order is canonical.
pub proof fn lemma_sorted_map_unique<T>(s1: Seq<(Seq<char>, T)>, s2: Seq<(Seq<char>, T)>)
    requires
        sorted_lt_keys(s1),
        sorted_lt_keys(s2),
        map_of(s1) == map_of(s2),
    ensures
        s1 == s2,
    decreases s1.len(),
{
    assert(keys_distinct(s1)) by {
        assert forall|i: int, j: int| 0 <= i < j < s1.len() implies s1[i].0 != s1[j].0 by {
            lemma_lex_total(s1[i].0, s1[j].0);
        }
    }
    assert(keys_distinct(s2)) by {
        assert forall|i: int, j: int| 0 <= i < j < s2.len() implies s2[i].0 != s2[j].0 by {
            lemma_lex_total(s2[i].0, s2[j].0);
        }
    }
    lemma_map_of_dom(s1);
    lemma_map_of_dom(s2);
    if s1.len() == 0 {
        if s2.len() > 0 {
            assert(contains_key(s2, s2[0].0));
            assert(map_of(s1).contains_key(s2[0].0));
        }
        assert(s1 =~= s2);
    } else if s2.len() == 0 {
        assert(contains_key(s1, s1[0].0));
        assert(map_of(s2).contains_key(s1[0].0));
    } else {
        assert(contains_key(s1, s1[0].0));
        assert(map_of(s2).contains_key(s1[0].0));
        assert(contains_key(s2, s1[0].0));
        let j = choose|j: int| 0 <= j < s2.len() && s2[j].0 == s1[0].0;
        assert(contains_key(s2, s2[0].0));
        assert(map_of(s1).contains_key(s2[0].0));
        assert(contains_key(s1, s2[0].0));
        let i = choose|i: int| 0 <= i < s1.len() && s1[i].0 == s2[0].0;
        assert(s1[0].0 == s2[0].0) by {
            lemma_lex_total(s1[0].0, s2[0].0);
            if lex_lt(s1[0].0, s2[0].0) {
                if j > 0 {
                    assert(lex_lt(s2[0].0, s2[j].0));
                    lemma_lex_trans(s1[0].0, s2[0].0, s2[j].0);
                    lemma_lex_total(s1[0].0, s2[j].0);
                }
            } else if lex_lt(s2[0].0, s1[0].0) {
                if i > 0 {
                    assert(lex_lt(s1[0].0, s1[i].0));
                    lemma_lex_trans(s2[0].0, s1[0].0, s1[i].0);
                    lemma_lex_total(s2[0].0, s1[i].0);
                }
            }
        }
        lemma_map_of_get_distinct(s1, 0);
        lemma_map_of_get_distinct(s2, 0);
        assert(s1[0] == s2[0]);
        let t1 = s1.skip(1);
        let t2 = s2.skip(1);
        assert(forall|i: int, j: int| 0 <= i < j < t1.len() ==> lex_lt(t1[i].0, t1[j].0));
        assert(forall|i: int, j: int| 0 <= i < j < t2.len() ==> lex_lt(t2[i].0, t2[j].0));
        assert(map_of(t1) == map_of(t2)) by {
            lemma_skip_first_map(s1);
            lemma_skip_first_map(s2);
        }
        lemma_sorted_map_unique(t1, t2);
        assert(s1 =~= s2) by {
            assert(forall|m: int| 1 <= m < s1.len() ==> s1[m] == t1[m - 1] && s2[m] == t2[m - 1]);
        }
    }
}

/// Dropping the first entry of a distinct-key list removes exactly its key
/// from the denoted map.
proof fn lemma_skip_first_map<T>(s: Seq<(Seq<char>, T)>)
    requires
        keys_distinct(s),
        s.len() > 0,
    ensures
        map_of(s.skip(1)) == map_of(s).remove(s[0].0),
    decreases s.len(),
{
    if s.len() == 1 {
        assert(s.skip(1) =~= Seq::<(Seq<char>, T)>::empty());
        assert(s.drop_last() =~= Seq::<(Seq<char>, T)>::empty());
        assert(map_of(s.skip(1)) =~= map_of(s).remove(s[0].0));
    } else {
        let t = s.drop_last();
        assert(forall|i: int, j: int| 0 <= i < j < t.len() ==> t[i].0 != t[j].0);
        assert(t.len() > 0 && t[0] == s[0]);
        lemma_skip_first_map(t);
        assert(s.skip(1).drop_last() =~= t.skip(1));
        assert(s.skip(1).last() == s.last());
        assert(map_of(s.skip(1)) == map_of(t.skip(1)).insert(s.last().0, s.last().1));
        assert(map_of(s) == map_of(t).insert(s.last().0, s.last().1));
        assert(s.last().0 != s[0].0) by {
            assert(s[0] == s[0] && s[s.len() - 1] == s.last());
        }
        assert(map_of(t).insert(s.last().0, s.last().1).remove(s[0].0) =~= map_of(t).remove(
            s[0].0,
        ).insert(s.last().0, s.last().1));
    }
}

/// The last entry carrying a key determines what the map holds for it.
pub proof fn lemma_map_of_last_occurrence<T>(s: Seq<(Seq<char>, T)>, i: int)
    requires
        0 <= i < s.len(),
        forall|j: int| i < j < s.len() ==> s[j].0 != s[i].0,
    ensures
        map_of(s).contains_key(s[i].0),
        map_of(s)[s[i].0] == s[i].1,
    decreases s.len(),
{
    if i == s.len() - 1 {
    } else {
        let t = s.drop_last();
        assert(t[i] == s[i]);
        assert(forall|j: int| i < j < t.len() ==> t[j] == s[j]);
        lemma_map_of_last_occurrence(t, i);
        assert(s[s.len() - 1].0 != s[i].0);
    }
}

/// A key no entry carries is absent from the map.
pub proof fn lemma_map_of_absent<T>(s: Seq<(Seq<char>, T)>, k: Seq<char>)
    requires
        forall|j: int| 0 <= j < s.len() ==> s[j].0 != k,
    ensures
        !map_of(s).contains_key(k),
        map_of(s).remove(k) == map_of(s),
{
    lemma_map_of_dom(s);
    assert(!contains_key(s, k));
    assert(map_of(s).remove(k) =~= map_of(s));
}

/// Overwriting the value of the last entry carrying a key updates the map
/// at that key.
pub proof fn lemma_map_of_update<T>(s: Seq<(Seq<char>, T)>, i: int, p: (Seq<char>, T))
    requires
        0 <= i < s.len(),
        s[i].0 == p.0,
        forall|j: int| i < j < s.len() ==> s[j].0 != s[i].0,
    ensures
        map_of(s.update(i, p)) == map_of(s).insert(p.0, p.1),
    decreases s.len(),
{
    let r = s.update(i, p);
    if i == s.len() - 1 {
        assert(r.drop_last() =~= s.drop_last());
        assert(r.last() == p);
        assert(map_of(r) == map_of(s.drop_last()).insert(p.0, p.1));
        assert(map_of(s.drop_last()).insert(p.0, p.1) =~= map_of(s.drop_last()).insert(
            s.last().0,
            s.last().1,
        ).insert(p.0, p.1));
    } else {
        assert(r.drop_last() =~= s.drop_last().update(i, p));
        assert(r.last() == s.last());
        assert(s.drop_last()[i] == s[i]);
        assert(forall|j: int| i < j < s.drop_last().len() ==> s.drop_last()[j] == s[j]);
        lemma_map_of_update(s.drop_last(), i, p);
        assert(s[s.len() - 1].0 != p.0);
        assert(map_of(s.drop_last()).insert(p.0, p.1).insert(s.last().0, s.last().1) =~= map_of(
            s.drop_last(),
        ).insert(s.last().0, s.last().1).insert(p.0, p.1));
    }
}

/// Removing an entry removes no more than its key from the map.
pub proof fn lemma_map_of_remove_entry<T>(s: Seq<(Seq<char>, T)>, i: int)
    requires
        0 <= i < s.len(),
    ensures
        map_of(s.remove(i)).remove(s[i].0) == map_of(s).remove(s[i].0),
    decreases s.len(),
{
    let k = s[i].0;
    if i == s.len() - 1 {
        assert(s.remove(i) =~= s.drop_last());
        assert(map_of(s.drop_last()).remove(k) =~= map_of(s.drop_last()).insert(
            s.last().0,
            s.last().1,
        ).remove(k));
    } else {
        assert(s.remove(i).drop_last() =~= s.drop_last().remove(i));
        assert(s.remove(i).last() == s.last());
        assert(s.drop_last()[i] == s[i]);
        lemma_map_of_remove_entry(s.drop_last(), i);
        if s.last().0 == k {
            assert(map_of(s.remove(i)).remove(k) =~= map_of(s.drop_last().remove(i)).remove(k));
            assert(map_of(s).remove(k) =~= map_of(s.drop_last()).remove(k));
        } else {
            assert(map_of(s.remove(i)).remove(k) =~= map_of(s.drop_last().remove(i)).remove(
                k,
            ).insert(s.last().0, s.last().1));
            assert(map_of(s).remove(k) =~= map_of(s.drop_last()).remove(k).insert(
                s.last().0,
                s.last().1,
            ));
        }
    }
}

/// Removing an entry keeps the remaining keys distinct.
pub proof fn lemma_keys_distinct_remove<T>(s: Seq<(Seq<char>, T)>, i: int)
    requires
        keys_distinct(s),
        0 <= i < s.len(),
    ensures
        keys_distinct(s.remove(i)),
{
    let r = s.remove(i);
    assert forall|m: int, n: int| 0 <= m < n < r.len() implies r[m].0 != r[n].0 by {
        let m0 = if m < i {
            m
        } else {
            m + 1
        };
        let n0 = if n < i {
            n
        } else {
            n + 1
        };
        assert(r[m] == s[m0] && r[n] == s[n0]);
    }
}

/// Where the scan for the insertion point stops determines the result of
/// `insert_sorted`.
pub proof fn lemma_insert_sorted_at<T>(s: Seq<(Seq<char>, T)>, i: int, p: (Seq<char>, T))
    requires
        0 <= i <= s.len(),
        forall|q: int| 0 <= q < i ==> lex_lt(s[q].0, p.0),
        i == s.len() || !lex_lt(s[i].0, p.0),
    ensures
        insert_sorted(s, p) == s.take(i) + seq![p] + s.skip(i),
    decreases i,
{
    if i == 0 {
        if s.len() == 0 {
            assert(insert_sorted(s, p) =~= s.take(0) + seq![p] + s.skip(0));
        } else {
            assert(insert_sorted(s, p) == seq![p] + s);
            assert(seq![p] + s =~= s.take(0) + seq![p] + s.skip(0));
        }
    } else {
        assert(lex_lt(s[0].0, p.0));
        let t = s.skip(1);
        assert(forall|q: int| 0 <= q < i - 1 ==> t[q] == s[q + 1]);
        assert(i - 1 == t.len() || !lex_lt(t[i - 1].0, p.0));
        lemma_insert_sorted_at(t, i - 1, p);
        assert(insert_sorted(s, p) == seq![s[0]] + (t.take(i - 1) + seq![p] + t.skip(i - 1)));
        assert(seq![s[0]] + (t.take(i - 1) + seq![p] + t.skip(i - 1)) =~= s.take(i) + seq![p]
            + s.skip(i));
    }
}

/// `sorted_le_keys` plus distinct keys gives the strict order.
pub proof fn lemma_sorted_le_distinct_lt<T>(s: Seq<(Seq<char>, T)>)
    requires
        sorted_le_keys(s),
        keys_distinct(s),
    ensures
        sorted_lt_keys(s),
{
    assert forall|i: int, j: int| 0 <= i < j < s.len() implies lex_lt(s[i].0, s[j].0) by {
        assert(lex_le(s[i].0, s[j].0));
        assert(s[i].0 != s[j].0);
    }
}

/// Finds the position of the last entry carrying the key, if any.
pub fn alist_find<V: View>(v: &Vec<(String, V)>, key: &str) -> (r: Option<usize>)
    ensures
        match r {
            Some(i) => i < v.len() && v@[i as int].0@ == key@ && (forall|j: int|
                i < j < v@.len() ==> v@[j as int].0@ != key@),
            None => forall|j: int| 0 <= j < v@.len() ==> v@[j].0@ != key@,
        },
{
    let mut found: Option<usize> = None;
    let mut i: usize = 0;
    while i < v.len()
        invariant
            i <= v.len(),
            match found {
                Some(f) => f < i && v@[f as int].0@ == key@ && (forall|j: int|
                    f < j < i ==> v@[j].0@ != key@),
                None => forall|j: int| 0 <= j < i ==> v@[j].0@ != key@,
            },
        decreases v.len() - i,
    {
        if str_eq(v[i].0.as_str(), key) {
            found = Some(i);
        }
        i = i + 1;
    }
    found
}

/// Looks a key up in the map the list denotes.
pub fn alist_get<'a, V: View>(v: &'a Vec<(String, V)>, key: &str) -> (r: Option<&'a V>)
    ensures
        match r {
            Some(value) => map_of(pview(v@)).contains_key(key@) && map_of(pview(v@))[key@]
                == value@,
            None => !map_of(pview(v@)).contains_key(key@),
        },
{
    match alist_find(v, key) {
        Some(i) => {
            proof {
                assert(pview(v@)[i as int] == (v@[i as int].0@, v@[i as int].1@));
                assert(forall|j: int|
                    i < j < pview(v@).len() ==> pview(v@)[j].0 == v@[j].0@);
                lemma_map_of_last_occurrence(pview(v@), i as int);
            }
            Some(&v[i].1)
        },
        None => {
            proof {
                assert(forall|j: int|
                    0 <= j < pview(v@).len() ==> pview(v@)[j].0 == v@[j].0@);
                lemma_map_of_absent(pview(v@), key@);
            }
            None
        },
    }
}

/// Sets a key to a value: the entry that carried the key is overwritten, or
/// a new entry is appended.
pub fn alist_upsert<V: View>(v: &mut Vec<(String, V)>, key: String, value: V)
    ensures
        map_of(pview(final(v)@)) == map_of(pview(old(v)@)).insert(key@, value@),
        keys_distinct(pview(old(v)@)) ==> keys_distinct(pview(final(v)@)),
        final(v)@.len() <= old(v)@.len() + 1,
{
    let ghost s0 = pview(v@);
    match alist_find(v, key.as_str()) {
        Some(i) => {
            let ghost kv = (key@, value@);
            v.remove(i);
            v.insert(i, (key, value));
            proof {
                assert(pview(v@) =~= s0.update(i as int, kv));
                assert(s0[i as int].0 == kv.0);
                assert(forall|j: int| (i as int) < j < s0.len() ==> s0[j].0 == old(v)@[j].0@);
                lemma_map_of_update(s0, i as int, kv);
                if keys_distinct(s0) {
                    assert(forall|j: int| 0 <= j < s0.len() ==> pview(v@)[j].0 == s0[j].0);
                    assert(keys_distinct(pview(v@)));
                }
            }
        },
        None => {
            v.push((key, value));
            proof {
                assert(pview(v@).drop_last() =~= s0);
                assert(pview(v@).last() == (key@, value@));
                if keys_distinct(s0) {
                    assert(forall|j: int| 0 <= j < s0.len() ==> s0[j].0 == old(v)@[j].0@);
                    assert(forall|j: int| 0 <= j < s0.len() ==> s0[j].0 != key@);
                    assert(forall|m: int| 0 <= m < s0.len() ==> pview(v@)[m] == s0[m]);
                    assert(pview(v@)[s0.len() as int] == (key@, value@));
                    assert forall|m: int, n: int|
                        0 <= m < n < pview(v@).len() implies pview(v@)[m].0 != pview(v@)[n].0 by {
                        if n < s0.len() {
                            assert(s0[m].0 != s0[n].0);
                        } else {
                            assert(pview(v@)[m].0 == s0[m].0);
                        }
                    }
                }
            }
        },
    }
}

/// Removes every entry carrying the key from the list.
pub fn alist_remove<V: View>(v: &mut Vec<(String, V)>, key: &str)
    ensures
        map_of(pview(final(v)@)) == map_of(pview(old(v)@)).remove(key@),
        keys_distinct(pview(old(v)@)) ==> keys_distinct(pview(final(v)@)),
        forall|j: int| 0 <= j < pview(final(v)@).len() ==> pview(final(v)@)[j].0 != key@,
{
    let ghost s0 = pview(old(v)@);
    let mut i: usize = 0;
    while i < v.len()
        invariant
            i <= v.len(),
            map_of(pview(v@)).remove(key@) == map_of(s0).remove(key@),
            keys_distinct(s0) ==> keys_distinct(pview(v@)),
            forall|j: int| 0 <= j < i ==> pview(v@)[j].0 != key@,
        decreases v.len() - i,
    {
        if str_eq(v[i].0.as_str(), key) {
            let ghost before = pview(v@);
            v.remove(i);
            proof {
                assert(pview(v@) =~= before.remove(i as int));
                lemma_map_of_remove_entry(before, i as int);
                if keys_distinct(s0) {
                    lemma_keys_distinct_remove(before, i as int);
                }
                assert(forall|j: int| 0 <= j < i ==> pview(v@)[j] == before[j]);
            }
        } else {
            i = i + 1;
        }
    }
    proof {
        lemma_map_of_absent(pview(v@), key@);
    }
}

/// Lists the entries in canonical key order.
pub fn alist_sort_keys<V: View>(v: Vec<(String, V)>) -> (r: Vec<(String, V)>)
    ensures
        pview(r@) == canon(pview(v@)),
{
    let ghost orig = v@;
    let mut rest = v;
    let mut out: Vec<(String, V)> = Vec::new();
    while rest.len() > 0
        invariant
            rest@.len() <= orig.len(),
            rest@ == orig.skip(orig.len() - rest@.len()),
            pview(out@) == canon(pview(orig.take(orig.len() - rest@.len()))),
        decreases rest@.len(),
    {
        let ghost k = orig.len() - rest@.len();
        let e = rest.remove(0);
        proof {
            assert(e == orig[k]);
            assert(rest@ =~= orig.skip(k + 1));
        }
        let ghost co = pview(out@);
        let ghost ev = (e.0@, e.1@);
        let mut p: usize = 0;
        loop
            invariant
                p <= out.len(),
                forall|q: int| 0 <= q < p ==> lex_lt(pview(out@)[q].0, e.0@),
            ensures
                p <= out.len(),
                forall|q: int| 0 <= q < p ==> lex_lt(pview(out@)[q].0, e.0@),
                p == out.len() || !lex_lt(pview(out@)[p as int].0, e.0@),
            decreases out.len() - p,
        {
            if p == out.len() {
                break;
            }
            if !str_lt(out[p].0.as_str(), e.0.as_str()) {
                proof {
                    assert(pview(out@)[p as int].0 == out@[p as int].0@);
                }
                break;
            }
            proof {
                assert(pview(out@)[p as int].0 == out@[p as int].0@);
            }
            p = p + 1;
        }
        out.insert(p, e);
        proof {
            lemma_insert_sorted_at(co, p as int, ev);
            assert(pview(out@) =~= co.take(p as int) + seq![ev] + co.skip(p as int));
            assert(pview(orig.take(k + 1)).drop_last() =~= pview(orig.take(k)));
            assert(pview(orig.take(k + 1)).last() == ev);
            assert(canon(pview(orig.take(k + 1))) == insert_sorted(canon(pview(orig.take(k))), ev));
        }
    }
    proof {
        assert(orig.take(orig.len() as int) =~= orig);
    }
    out
}

/// Names paired with a unit mark, so that the canonical sort applies to a
/// plain list of names.
pub open spec fn tagged(names: Seq<Seq<char>>) -> Seq<(Seq<char>, bool)> {
    names.map_values(|n: Seq<char>| (n, true))
}

/// A list of names in canonical lexicographic order.
pub open spec fn sorted_strings_view(names: Seq<Seq<char>>) -> Seq<Seq<char>> {
    canon(tagged(names)).map_values(|p: (Seq<char>, bool)| p.0)
}

/// Sorts a list of strings lexicographically.
pub fn sort_strings(v: Vec<String>) -> (r: Vec<String>)
    ensures
        r@.map_values(|s: String| s@) == sorted_strings_view(v@.map_values(|s: String| s@)),
{
    let ghost target = v@.map_values(|s: String| s@);
    let mut pairs: Vec<(String, bool)> = Vec::new();
    let mut rest = v;
    while rest.len() > 0
        invariant
            rest@.len() <= target.len(),
            rest@.map_values(|s: String| s@) == target.skip(target.len() - rest@.len()),
            pview(pairs@) == tagged(target.take(target.len() - rest@.len())),
        decreases rest@.len(),
    {
        let ghost k = target.len() - rest@.len();
        let ghost oldrest = rest@;
        let ghost before = pview(pairs@);
        let e = rest.remove(0);
        pairs.push((e, true));
        proof {
            assert(e == oldrest[0]);
            assert(oldrest.map_values(|s: String| s@)[0] == e@);
            assert(e@ == target[k]);
            assert(rest@ =~= oldrest.skip(1));
            assert(rest@.map_values(|s: String| s@) =~= oldrest.map_values(
                |s: String| s@,
            ).skip(1));
            assert(oldrest.map_values(|s: String| s@).skip(1) =~= target.skip(k + 1));
            assert(pview(pairs@) =~= before.push((e@, true)));
            assert(pview(pairs@) =~= tagged(target.take(k + 1)));
        }
    }
    proof {
        assert(tagged(target.take(target.len() as int)) =~= tagged(target));
    }
    let sorted = alist_sort_keys(pairs);
    let ghost sview = pview(sorted@);
    let mut r: Vec<String> = Vec::new();
    let mut out_rest = sorted;
    while out_rest.len() > 0
        invariant
            out_rest@.len() <= sview.len(),
            pview(out_rest@) == sview.skip(sview.len() - out_rest@.len()),
            r@.map_values(|s: String| s@) == sview.map_values(|p: (Seq<char>, bool)| p.0).take(
                sview.len() - out_rest@.len(),
            ),
        decreases out_rest@.len(),
    {
        let ghost k = sview.len() - out_rest@.len();
        let ghost rbefore = r@.map_values(|s: String| s@);
        let ghost oldrest = out_rest@;
        let e = out_rest.remove(0);
        r.push(e.0);
        proof {
            assert(e == oldrest[0]);
            assert(pview(oldrest) == sview.skip(k));
            assert(pview(oldrest)[0] == (oldrest[0].0@, oldrest[0].1@));
            assert(out_rest@ =~= oldrest.skip(1));
            assert(pview(out_rest@) =~= pview(oldrest).skip(1));
            assert(pview(out_rest@) =~= sview.skip(k + 1));
            assert(e.0@ == sview[k].0);
            assert(r@.map_values(|s: String| s@) =~= rbefore.push(e.0@));
            assert(r@.map_values(|s: String| s@) =~= sview.map_values(
                |p: (Seq<char>, bool)| p.0,
            ).take(k + 1));
        }
    }
    proof {
        assert(sview.map_values(|p: (Seq<char>, bool)| p.0).take(sview.len() as int)
            =~= sorted_strings_view(target));
    }
    r
}

/// Copies a vector of strings, value for value.
pub fn clone_strings(v: &Vec<String>) -> (r: Vec<String>)
    ensures
        r@ == v@,
{
    let mut r: Vec<String> = Vec::new();
    let mut i: usize = 0;
    while i < v.len()
        invariant
            i <= v.len(),
            r@ == v@.take(i as int),
        decreases v.len() - i,
    {
        r.push(v[i].clone());
        proof {
            assert(v@.take(i + 1).drop_last() =~= v@.take(i as int));
            assert(r@ =~= v@.take(i + 1));
        }
        i = i + 1;
    }
    proof {
        assert(v@.take(v@.len() as int) =~= v@);
    }
    r
}

} // verus!

