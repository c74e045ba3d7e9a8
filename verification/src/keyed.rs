//! Sequences of values with string keys, kept sorted by key: the ordered maps
//! and sets of the domain (artifact nodes, filter nodes, service tables,
//! object members) are stored this way. vstd specifies `BTreeMap` and
//! `BTreeSet` only under `obeys_cmp` for the key type, which it provides for
//! integer keys, not for `String`; and its map is keyed by the `String`
//! values, not by their text. A sorted vector with `to_map` gives the same
//! order and lookups with everything proved.

use vstd::prelude::*;

use crate::text::{lemma_seq_lt_irreflexive, lemma_seq_lt_transitive, lemma_seq_lt_trichotomy, seq_lt, str_equal, str_less};

verus! {

pub trait Keyed {
    spec fn key(&self) -> Seq<char>;

    fn key_str(&self) -> (k: &str)
        ensures
            k@ == self.key(),
    ;
}

impl Keyed for String {
    open spec fn key(&self) -> Seq<char> {
        self@
    }

    fn key_str(&self) -> (k: &str) {
        self.as_str()
    }
}

/// Keys strictly increase along the sequence (so no key occurs twice).
pub open spec fn keys_sorted<T: Keyed>(s: Seq<T>) -> bool {
    forall|i: int, j: int| 0 <= i < j < s.len() ==> seq_lt(#[trigger] s[i].key(), #[trigger] s[j].key())
}

pub open spec fn has_key<T: Keyed>(s: Seq<T>, k: Seq<char>) -> bool {
    exists|i: int| 0 <= i < s.len() && #[trigger] s[i].key() == k
}

/// The map from key to value that a sorted keyed sequence represents.
pub open spec fn to_map<T: Keyed>(s: Seq<T>) -> Map<Seq<char>, T>
    decreases s.len(),
{
    if s.len() == 0 {
        Map::empty()
    } else {
        to_map(s.drop_last()).insert(s.last().key(), s.last())
    }
}

/// The position of the value with key `k`, where there is one.
pub open spec fn key_index<T: Keyed>(s: Seq<T>, k: Seq<char>) -> int {
    choose|i: int| 0 <= i < s.len() && #[trigger] s[i].key() == k
}

pub proof fn lemma_sorted_unique<T: Keyed>(s: Seq<T>, i: int, j: int)
    requires
        keys_sorted(s),
        0 <= i < s.len(),
        0 <= j < s.len(),
        s[i].key() == s[j].key(),
    ensures
        i == j,
{
    if i < j {
        assert(seq_lt(s[i].key(), s[j].key()));
        lemma_seq_lt_irreflexive(s[i].key());
    } else if j < i {
        assert(seq_lt(s[j].key(), s[i].key()));
        lemma_seq_lt_irreflexive(s[i].key());
    }
}

pub proof fn lemma_to_map<T: Keyed>(s: Seq<T>)
    requires
        keys_sorted(s),
    ensures
        forall|k: Seq<char>| #[trigger] to_map(s).contains_key(k) <==> has_key(s, k),
        forall|i: int| 0 <= i < s.len() ==> to_map(s)[#[trigger] s[i].key()] == s[i],
        to_map(s).dom().finite(),
        to_map(s).dom().len() == s.len(),
    decreases s.len(),
{
    if s.len() > 0 {
        let p = s.drop_last();
        assert(keys_sorted(p));
        lemma_to_map(p);
        assert forall|k: Seq<char>| #[trigger] to_map(s).contains_key(k) <==> has_key(s, k) by {
            if has_key(s, k) {
                let i = choose|i: int| 0 <= i < s.len() && #[trigger] s[i].key() == k;
                if i < s.len() - 1 {
                    assert(p[i].key() == k);
                }
            }
            if to_map(p).contains_key(k) {
                let i = choose|i: int| 0 <= i < p.len() && #[trigger] p[i].key() == k;
                assert(s[i].key() == k);
            }
        }
        assert forall|i: int| 0 <= i < s.len() implies to_map(s)[#[trigger] s[i].key()] == s[i] by {
            if i < s.len() - 1 {
                assert(seq_lt(s[i].key(), s[s.len() - 1].key()));
                lemma_seq_lt_irreflexive(s[i].key());
                assert(p[i] == s[i]);
            }
        }
        assert(!to_map(p).contains_key(s.last().key())) by {
            if to_map(p).contains_key(s.last().key()) {
                let i = choose|i: int| 0 <= i < p.len() && #[trigger] p[i].key() == s.last().key();
                assert(s[i].key() == s[s.len() - 1].key());
                lemma_sorted_unique(s, i, s.len() - 1);
            }
        }
    }
}

/// The position of the value with key `k`, if any.
pub fn find_key<T: Keyed>(v: &Vec<T>, k: &str) -> (found: Option<usize>)
    ensures
        found matches Some(i) ==> i < v@.len() && v@[i as int].key() == k@ && forall|j: int|
            0 <= j < i ==> #[trigger] v@[j].key() != k@,
        found is None ==> !has_key(v@, k@),
{
    let mut i: usize = 0;
    while i < v.len()
        invariant
            0 <= i <= v@.len(),
            forall|j: int| 0 <= j < i ==> v@[j].key() != k@,
        decreases v.len() - i,
    {
        if str_equal(v[i].key_str(), k) {
            return Some(i);
        }
        i = i + 1;
    }
    None
}

/// The first position whose key is greater than `k`: inserting a value with a
/// new key `k` there keeps a sorted sequence sorted.
pub fn insertion_point<T: Keyed>(v: &Vec<T>, k: &str) -> (position: usize)
    requires
        keys_sorted(v@),
    ensures
        position <= v@.len(),
        forall|j: int| 0 <= j < position ==> !seq_lt(k@, #[trigger] v@[j].key()),
        forall|j: int| position <= j < v@.len() ==> seq_lt(k@, #[trigger] v@[j].key()),
{
    let mut i: usize = 0;
    while i < v.len()
        invariant
            0 <= i <= v@.len(),
            keys_sorted(v@),
            forall|j: int| 0 <= j < i ==> !seq_lt(k@, #[trigger] v@[j].key()),
        decreases v.len() - i,
    {
        if str_less(k, v[i].key_str()) {
            assert forall|j: int| i <= j < v@.len() implies seq_lt(k@, #[trigger] v@[j].key()) by {
                if j > i {
                    lemma_seq_lt_transitive(k@, v@[i as int].key(), v@[j].key());
                }
            }
            return i;
        }
        i = i + 1;
    }
    i
}

pub proof fn lemma_insert_sorted<T: Keyed>(s: Seq<T>, p: int, x: T)
    requires
        keys_sorted(s),
        0 <= p <= s.len(),
        !has_key(s, x.key()),
        forall|j: int| 0 <= j < p ==> !seq_lt(x.key(), #[trigger] s[j].key()),
        forall|j: int| p <= j < s.len() ==> seq_lt(x.key(), #[trigger] s[j].key()),
    ensures
        keys_sorted(s.insert(p, x)),
        to_map(s.insert(p, x)) == to_map(s).insert(x.key(), x),
{
    let t = s.insert(p, x);
    assert forall|i: int, j: int| 0 <= i < j < t.len() implies seq_lt(#[trigger] t[i].key(), #[trigger] t[j].key()) by {
        if j < p {
            assert(t[i] == s[i] && t[j] == s[j]);
        } else if j == p {
            assert(t[i] == s[i]);
            lemma_seq_lt_trichotomy(x.key(), s[i].key());
            if s[i].key() == x.key() {
                assert(has_key(s, x.key()));
            }
        } else if i == p {
            assert(t[j] == s[j - 1]);
        } else if i < p {
            assert(t[i] == s[i] && t[j] == s[j - 1]);
            assert(seq_lt(x.key(), s[j - 1].key()));
            lemma_seq_lt_trichotomy(x.key(), s[i].key());
            if s[i].key() == x.key() {
                assert(has_key(s, x.key()));
            } else if seq_lt(x.key(), s[i].key()) {
            }
            if i < j - 1 {
                assert(seq_lt(s[i].key(), s[j - 1].key()));
            } else {
                assert(seq_lt(s[i].key(), x.key()));
                lemma_seq_lt_transitive(s[i].key(), x.key(), s[j - 1].key());
            }
        } else {
            assert(t[i] == s[i - 1] && t[j] == s[j - 1]);
        }
    }
    lemma_to_map(s);
    lemma_to_map(t);
    assert(to_map(t) =~= to_map(s).insert(x.key(), x)) by {
        assert forall|k: Seq<char>| #[trigger] to_map(t).contains_key(k) <==> to_map(s).insert(
            x.key(),
            x,
        ).contains_key(k) by {
            if has_key(t, k) {
                let i = choose|i: int| 0 <= i < t.len() && #[trigger] t[i].key() == k;
                if i < p {
                    assert(s[i].key() == k);
                } else if i > p {
                    assert(s[i - 1].key() == k);
                }
            }
            if has_key(s, k) {
                let i = choose|i: int| 0 <= i < s.len() && #[trigger] s[i].key() == k;
                if i < p {
                    assert(t[i].key() == k);
                } else {
                    assert(t[i + 1].key() == k);
                }
            }
            assert(t[p].key() == x.key());
        }
        assert forall|k: Seq<char>| #[trigger] to_map(t).contains_key(k) implies to_map(t)[k]
            == to_map(s).insert(x.key(), x)[k] by {
            let i = choose|i: int| 0 <= i < t.len() && #[trigger] t[i].key() == k;
            if i < p {
                assert(t[i] == s[i]);
                assert(to_map(s)[s[i].key()] == s[i]);
            } else if i > p {
                assert(t[i] == s[i - 1]);
                assert(to_map(s)[s[i - 1].key()] == s[i - 1]);
            }
        }
    }
}

/// Removing one value keeps the keys sorted and drops exactly its key.
pub proof fn lemma_remove_sorted<T: Keyed>(s: Seq<T>, i: int)
    requires
        keys_sorted(s),
        0 <= i < s.len(),
    ensures
        keys_sorted(s.remove(i)),
        to_map(s.remove(i)) == to_map(s).remove(s[i].key()),
{
    let t = s.remove(i);
    assert forall|a: int, b: int| 0 <= a < b < t.len() implies seq_lt(#[trigger] t[a].key(), #[trigger] t[b].key()) by {
        let a0 = if a < i { a } else { a + 1 };
        let b0 = if b < i { b } else { b + 1 };
        assert(t[a] == s[a0] && t[b] == s[b0]);
    }
    lemma_to_map(s);
    lemma_to_map(t);
    assert(to_map(t) =~= to_map(s).remove(s[i].key())) by {
        assert forall|k: Seq<char>| #[trigger] to_map(t).contains_key(k) <==> to_map(s).remove(s[i].key()).contains_key(k) by {
            if has_key(t, k) {
                let a = choose|a: int| 0 <= a < t.len() && #[trigger] t[a].key() == k;
                let a0 = if a < i { a } else { a + 1 };
                assert(s[a0].key() == k);
                lemma_sorted_unique(s, a0, a0);
                if k == s[i].key() {
                    lemma_sorted_unique(s, a0, i);
                }
            }
            if has_key(s, k) && k != s[i].key() {
                let a = choose|a: int| 0 <= a < s.len() && #[trigger] s[a].key() == k;
                if a < i {
                    assert(t[a].key() == k);
                } else {
                    assert(a != i);
                    assert(t[a - 1].key() == k);
                }
            }
        }
        assert forall|k: Seq<char>| #[trigger] to_map(t).contains_key(k) implies to_map(t)[k] == to_map(s).remove(
            s[i].key(),
        )[k] by {
            let a = choose|a: int| 0 <= a < t.len() && #[trigger] t[a].key() == k;
            let a0 = if a < i { a } else { a + 1 };
            assert(t[a] == s[a0]);
            assert(to_map(s)[s[a0].key()] == s[a0]);
        }
    }
}

/// Replacing a value by one with the same key keeps the keys sorted and
/// rebinds that key.
pub proof fn lemma_update_sorted<T: Keyed>(s: Seq<T>, i: int, x: T)
    requires
        keys_sorted(s),
        0 <= i < s.len(),
        x.key() == s[i].key(),
    ensures
        keys_sorted(s.update(i, x)),
        to_map(s.update(i, x)) == to_map(s).insert(x.key(), x),
{
    let t = s.update(i, x);
    assert forall|a: int, b: int| 0 <= a < b < t.len() implies seq_lt(#[trigger] t[a].key(), #[trigger] t[b].key()) by {
        assert(t[a].key() == s[a].key() && t[b].key() == s[b].key());
    }
    lemma_to_map(s);
    lemma_to_map(t);
    assert(to_map(t) =~= to_map(s).insert(x.key(), x)) by {
        assert forall|k: Seq<char>| #[trigger] to_map(t).contains_key(k) <==> to_map(s).insert(x.key(), x).contains_key(k) by {
            if has_key(t, k) {
                let a = choose|a: int| 0 <= a < t.len() && #[trigger] t[a].key() == k;
                assert(s[a].key() == k);
            }
            if has_key(s, k) {
                let a = choose|a: int| 0 <= a < s.len() && #[trigger] s[a].key() == k;
                assert(t[a].key() == k);
            }
            assert(t[i].key() == x.key());
        }
        assert forall|k: Seq<char>| #[trigger] to_map(t).contains_key(k) implies to_map(t)[k] == to_map(s).insert(
            x.key(),
            x,
        )[k] by {
            let a = choose|a: int| 0 <= a < t.len() && #[trigger] t[a].key() == k;
            if a == i {
                assert(to_map(t)[t[i].key()] == t[i]);
            } else {
                assert(t[a] == s[a]);
                assert(to_map(s)[s[a].key()] == s[a]);
                if k == x.key() {
                    lemma_sorted_unique(s, a, i);
                }
            }
        }
    }
}

} // verus!
