//! JSON documents as the library reads them, and lookups, updates and
//! removals of object members by key.

use vstd::prelude::*;

use crate::keyed::{
    find_key, has_key, insertion_point, keys_sorted, lemma_insert_sorted, lemma_remove_sorted, lemma_sorted_unique,
    lemma_to_map, lemma_update_sorted, to_map, Keyed,
};

verus! {

/// A JSON value. Numbers are kept as a `u64`, a negative `i64`, or, for any
/// other number, its decimal text. Object members are listed in key order
/// with each key once, as the document store keeps them.
#[derive(Debug, PartialEq, Eq)]
pub enum Json {
    Null,
    Bool(bool),
    Unsigned(u64),
    Negative(i64),
    Decimal(String),
    Text(String),
    Array(Vec<Json>),
    Object(Vec<(String, Json)>),
}

impl Keyed for (String, Json) {
    open spec fn key(&self) -> Seq<char> {
        self.0@
    }

    fn key_str(&self) -> (k: &str) {
        self.0.as_str()
    }
}

/// The position of the first member with key `k`.
pub open spec fn first_index(m: Seq<(String, Json)>, k: Seq<char>) -> int {
    choose|i: int| 0 <= i < m.len() && m[i].0@ == k && forall|j: int| 0 <= j < i ==> #[trigger] m[j].0@ != k
}

/// What a lookup of key `k` in an object's members finds.
#[verifier::opaque]
pub open spec fn member(m: Seq<(String, Json)>, k: Seq<char>) -> Option<Json> {
    if has_key(m, k) {
        Some(m[first_index(m, k)].1)
    } else {
        None
    }
}

pub proof fn lemma_member_at(m: Seq<(String, Json)>, i: int, k: Seq<char>)
    requires
        0 <= i < m.len(),
        m[i].0@ == k,
        forall|j: int| 0 <= j < i ==> #[trigger] m[j].0@ != k,
    ensures
        member(m, k) == Some(m[i].1),
{
    reveal(member);
    assert(m[i].key() == k);
    assert(has_key(m, k));
    let c = first_index(m, k);
    assert(0 <= c < m.len() && m[c].0@ == k && forall|j: int| 0 <= j < c ==> #[trigger] m[j].0@ != k);
    if c < i {
        assert(m[c].0@ != k);
    } else if i < c {
        assert(m[i].0@ != k);
    }
}

/// In a sorted member list, lookups are those of the map it represents.
pub proof fn lemma_member_sorted(m: Seq<(String, Json)>)
    requires
        keys_sorted(m),
    ensures
        forall|k: Seq<char>| #[trigger] member(m, k) == (if to_map(m).contains_key(k) {
            Some(to_map(m)[k].1)
        } else {
            None
        }),
{
    reveal(member);
    lemma_to_map(m);
    assert forall|k: Seq<char>| #[trigger] member(m, k) == (if to_map(m).contains_key(k) {
        Some(to_map(m)[k].1)
    } else {
        None
    }) by {
        if has_key(m, k) {
            let i = choose|i: int| 0 <= i < m.len() && #[trigger] m[i].key() == k;
            assert forall|j: int| 0 <= j < i implies #[trigger] m[j].0@ != k by {
                if m[j].0@ == k {
                    assert(m[j].key() == m[i].key());
                    lemma_sorted_unique(m, j, i);
                }
            }
            lemma_member_at(m, i, k);
            assert(to_map(m)[m[i].key()] == m[i]);
        }
    }
}

/// The member with key `k`, if any.
pub fn member_index(m: &Vec<(String, Json)>, k: &str) -> (found: Option<usize>)
    ensures
        found matches Some(i) ==> i < m@.len() && member(m@, k@) == Some(m@[i as int].1),
        found is None ==> member(m@, k@) is None,
{
    let found = find_key(m, k);
    proof {
        reveal(member);
        if let Some(i) = found {
            assert forall|j: int| 0 <= j < i implies #[trigger] m@[j].0@ != k@ by {
                assert(m@[j].key() != k@);
            }
            lemma_member_at(m@, i as int, k@);
        }
    }
    found
}

/// Binds `k` to `v`, in place if `k` is a member, else at its place in key
/// order.
pub fn set_member(m: &mut Vec<(String, Json)>, k: &str, v: Json)
    requires
        keys_sorted(old(m)@),
    ensures
        keys_sorted(final(m)@),
        forall|q: Seq<char>| #[trigger] member(final(m)@, q) == (if q == k@ {
            Some(v)
        } else {
            member(old(m)@, q)
        }),
{
    let ghost before = m@;
    proof {
        lemma_member_sorted(before);
    }
    match find_key(m, k) {
        Some(i) => {
            let key = m[i].0.clone();
            let ghost entry = (key, v);
            m.set(i, (key, v));
            proof {
                assert(m@ == before.update(i as int, entry));
                lemma_update_sorted(before, i as int, entry);
            }
        },
        None => {
            let p = insertion_point(m, k);
            let key = k.to_owned();
            let ghost entry = (key, v);
            m.insert(p, (key, v));
            proof {
                assert(m@ == before.insert(p as int, entry));
                lemma_insert_sorted(before, p as int, entry);
            }
        },
    }
    proof {
        lemma_member_sorted(m@);
    }
}

/// Removes the member with key `k` and hands back its value.
pub fn take_member(m: &mut Vec<(String, Json)>, k: &str) -> (taken: Option<Json>)
    requires
        keys_sorted(old(m)@),
    ensures
        keys_sorted(final(m)@),
        taken == member(old(m)@, k@),
        forall|q: Seq<char>| #[trigger] member(final(m)@, q) == (if q == k@ {
            None
        } else {
            member(old(m)@, q)
        }),
{
    let ghost before = m@;
    proof {
        lemma_member_sorted(before);
    }
    match find_key(m, k) {
        Some(i) => {
            let entry = m.remove(i);
            proof {
                lemma_remove_sorted(before, i as int);
                lemma_member_sorted(m@);
                lemma_to_map(before);
                assert(to_map(before)[before[i as int].key()] == before[i as int]);
            }
            Some(entry.1)
        },
        None => {
            proof {
                lemma_to_map(before);
            }
            None
        },
    }
}

} // verus!
