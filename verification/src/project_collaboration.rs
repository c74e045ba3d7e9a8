//! Local-first sync, upload, blob, lease and sharing contracts.

use vstd::prelude::*;

use crate::fingerprint::Fingerprint;
use crate::text::{char_is_ascii_alphanumeric, char_is_ascii_hexdigit, chars_of, is_ascii_alphanumeric, is_ascii_hexdigit, str_equal};

verus! {

pub open spec fn is_token_char(c: char) -> bool {
    is_ascii_alphanumeric(c) || c == '.' || c == '_' || c == ':' || c == '-'
}

/// One to `max` ASCII letters, digits, `.`, `_`, `:` or `-`.
pub open spec fn is_plain_token(s: Seq<char>, max: nat) -> bool {
    &&& 1 <= s.len() <= max
    &&& forall|i: int| 0 <= i < s.len() ==> is_token_char(#[trigger] s[i])
}

pub fn plain_token(value: &str, max: usize) -> (plain: bool)
    ensures
        plain == is_plain_token(value@, max as nat),
{
    let chars = chars_of(value);
    if chars.len() == 0 || chars.len() > max {
        return false;
    }
    let mut i: usize = 0;
    while i < chars.len()
        invariant
            0 <= i <= chars@.len(),
            chars@ == value@,
            forall|k: int| 0 <= k < i ==> is_token_char(#[trigger] chars@[k]),
        decreases chars.len() - i,
    {
        let c = chars[i];
        if !(char_is_ascii_alphanumeric(c) || c == '.' || c == '_' || c == ':' || c == '-') {
            return false;
        }
        i = i + 1;
    }
    true
}

/// The value of the first entry named `key`; a map's entries name each key once.
pub open spec fn lookup(entries: Seq<(String, u64)>, key: Seq<char>) -> Option<u64>
    decreases entries.len(),
{
    if entries.len() == 0 {
        None
    } else if entries[0].0@ == key {
        Some(entries[0].1)
    } else {
        lookup(entries.drop_first(), key)
    }
}

pub(crate) fn lookup_value(entries: &[(String, u64)], key: &str) -> (found: Option<u64>)
    ensures
        found == lookup(entries@, key@),
{
    let mut i: usize = 0;
    assert(entries@.skip(0) =~= entries@);
    while i < entries.len()
        invariant
            0 <= i <= entries@.len(),
            lookup(entries@, key@) == lookup(entries@.skip(i as int), key@),
        decreases entries.len() - i,
    {
        assert(entries@.skip(i as int)[0] == entries@[i as int]);
        if str_equal(entries[i].0.as_str(), key) {
            return Some(entries[i].1);
        }
        assert(entries@.skip(i as int).drop_first() =~= entries@.skip(i + 1));
        i = i + 1;
    }
    None
}

pub struct SnapshotHorizon {
    pub snapshot_fingerprint: Fingerprint,
    /// The latest sequence of each actor in the snapshot, as a map.
    pub state_vector: Vec<(String, u64)>,
    /// What each client has acknowledged, per actor, as a map of maps.
    pub acknowledgements: Vec<(String, Vec<(String, u64)>)>,
}

/// The acknowledgements recorded for `client`; entries name each client once.
pub open spec fn acknowledgement(acks: Seq<(String, Vec<(String, u64)>)>, client: Seq<char>) -> Option<Seq<(String, u64)>>
    decreases acks.len(),
{
    if acks.len() == 0 {
        None
    } else if acks[0].0@ == client {
        Some(acks[0].1@)
    } else {
        acknowledgement(acks.drop_first(), client)
    }
}

/// `ack` covers every actor of the state vector up to its sequence.
pub open spec fn covers(ack: Seq<(String, u64)>, state: Seq<(String, u64)>) -> bool {
    forall|k: int|
        0 <= k < state.len() ==> (match lookup(ack, (#[trigger] state[k]).0@) {
            Some(seen) => seen,
            None => 0,
        }) >= state[k].1
}

impl SnapshotHorizon {
    /// A snapshot may replace history only once every active client has
    /// acknowledged all of it.
    pub fn can_compact(&self, active_clients: &[String]) -> (ok: bool)
        ensures
            ok == forall|c: int|
                0 <= c < active_clients@.len() ==> (acknowledgement(
                    self.acknowledgements@,
                    (#[trigger] active_clients@[c])@,
                ) matches Some(ack) && covers(ack, self.state_vector@)),
    {
        let mut c: usize = 0;
        while c < active_clients.len()
            invariant
                0 <= c <= active_clients@.len(),
                forall|x: int|
                    0 <= x < c ==> (acknowledgement(self.acknowledgements@, (#[trigger] active_clients@[x])@) matches Some(
                        ack,
                    ) && covers(ack, self.state_vector@)),
            decreases active_clients.len() - c,
        {
            let client = active_clients[c].as_str();
            let mut a: usize = 0;
            assert(self.acknowledgements@.skip(0) =~= self.acknowledgements@);
            while a < self.acknowledgements.len() && !str_equal(self.acknowledgements[a].0.as_str(), client)
                invariant
                    0 <= a <= self.acknowledgements@.len(),
                    c < active_clients@.len(),
                    client@ == active_clients@[c as int]@,
                    forall|x: int|
                        0 <= x < c ==> (acknowledgement(self.acknowledgements@, (#[trigger] active_clients@[x])@) matches Some(
                            ack,
                        ) && covers(ack, self.state_vector@)),
                    acknowledgement(self.acknowledgements@, client@) == acknowledgement(
                        self.acknowledgements@.skip(a as int),
                        client@,
                    ),
                decreases self.acknowledgements.len() - a,
            {
                assert(self.acknowledgements@.skip(a as int)[0] == self.acknowledgements@[a as int]);
                assert(self.acknowledgements@.skip(a as int).drop_first() =~= self.acknowledgements@.skip(a + 1));
                a = a + 1;
            }
            if a == self.acknowledgements.len() {
                return false;
            }
            assert(self.acknowledgements@.skip(a as int)[0] == self.acknowledgements@[a as int]);
            let ack = &self.acknowledgements[a].1;
            let mut k: usize = 0;
            while k < self.state_vector.len()
                invariant
                    0 <= k <= self.state_vector@.len(),
                    c < active_clients@.len(),
                    client@ == active_clients@[c as int]@,
                    acknowledgement(self.acknowledgements@, client@) == Some(ack@),
                    forall|x: int|
                        0 <= x < c ==> (acknowledgement(self.acknowledgements@, (#[trigger] active_clients@[x])@) matches Some(
                            ack,
                        ) && covers(ack, self.state_vector@)),
                    forall|y: int|
                        0 <= y < k ==> (match lookup(ack@, (#[trigger] self.state_vector@[y]).0@) {
                            Some(seen) => seen,
                            None => 0,
                        }) >= self.state_vector@[y].1,
                decreases self.state_vector.len() - k,
            {
                let seen = match lookup_value(ack.as_slice(), self.state_vector[k].0.as_str()) {
                    Some(v) => v,
                    None => 0,
                };
                if seen < self.state_vector[k].1 {
                    return false;
                }
                k = k + 1;
            }
            c = c + 1;
        }
        true
    }
}

#[derive(Debug, Clone, Copy, PartialEq, Eq, Structural)]
pub struct RecoveryDrill {
    pub rpo_seconds: u64,
    pub rto_seconds: u64,
    pub integrity_ok: bool,
    pub restore_verified: bool,
}

impl RecoveryDrill {
    pub fn passes(self, max_rpo: u64, max_rto: u64) -> (ok: bool)
        ensures
            ok == (self.integrity_ok && self.restore_verified && self.rpo_seconds <= max_rpo && self.rto_seconds
                <= max_rto),
    {
        self.integrity_ok && self.restore_verified && self.rpo_seconds <= max_rpo && self.rto_seconds <= max_rto
    }
}

pub struct ResumableUpload {
    pub id: String,
    pub total_bytes: u64,
    pub committed_offset: u64,
    pub sha256: String,
    pub expires_at: u64,
}

impl ResumableUpload {
    /// Commit `bytes` more at `expected_offset`, before the upload expires and
    /// without passing its declared size.
    pub fn append(&mut self, expected_offset: u64, bytes: u64, now: u64) -> (result: Result<u64, &'static str>)
        ensures
            final(self).id == old(self).id,
            final(self).total_bytes == old(self).total_bytes,
            final(self).sha256 == old(self).sha256,
            final(self).expires_at == old(self).expires_at,
            now >= old(self).expires_at ==> (result matches Err(m) && m@ == "upload expired"@),
            now < old(self).expires_at && expected_offset != old(self).committed_offset ==> (result matches Err(m)
                && m@ == "upload offset conflict"@),
            now < old(self).expires_at && expected_offset == old(self).committed_offset && old(self).committed_offset
                + bytes > old(self).total_bytes ==> (result matches Err(m) && m@ == "upload exceeds declared size"@),
            result is Ok <==> (now < old(self).expires_at && expected_offset == old(self).committed_offset
                && old(self).committed_offset + bytes <= old(self).total_bytes),
            result is Ok ==> final(self).committed_offset == old(self).committed_offset + bytes && result == Ok::<
                u64,
                &'static str,
            >(final(self).committed_offset),
            result is Err ==> final(self).committed_offset == old(self).committed_offset,
    {
        if now >= self.expires_at {
            return Err("upload expired");
        }
        if expected_offset != self.committed_offset {
            return Err("upload offset conflict");
        }
        match self.committed_offset.checked_add(bytes) {
            Some(offset) => {
                if offset <= self.total_bytes {
                    self.committed_offset = offset;
                    Ok(offset)
                } else {
                    Err("upload exceeds declared size")
                }
            },
            None => Err("upload exceeds declared size"),
        }
    }

    /// Every declared byte arrived and the digest is 64 hexadecimal digits.
    pub fn complete(&self) -> (done: bool)
        ensures
            done == (self.committed_offset == self.total_bytes && self.sha256@.len() == 64 && forall|i: int|
                0 <= i < self.sha256@.len() ==> is_ascii_hexdigit(#[trigger] self.sha256@[i])),
    {
        if self.committed_offset != self.total_bytes {
            return false;
        }
        let chars = chars_of(self.sha256.as_str());
        if chars.len() != 64 {
            return false;
        }
        let mut i: usize = 0;
        while i < chars.len()
            invariant
                0 <= i <= chars@.len(),
                chars@ == self.sha256@,
                forall|k: int| 0 <= k < i ==> is_ascii_hexdigit(#[trigger] chars@[k]),
            decreases chars.len() - i,
        {
            if !char_is_ascii_hexdigit(chars[i]) {
                return false;
            }
            i = i + 1;
        }
        true
    }
}

/// For each blob, the projects that still reference it.
pub struct BlobReferences {
    owners: Vec<(Fingerprint, Vec<String>)>,
}

impl Default for BlobReferences {
    fn default() -> (references: Self)
        ensures
            references.well_formed(),
            forall|b: Seq<char>| #[trigger] references.holders(b) == Set::<Seq<char>>::empty(),
    {
        BlobReferences::new()
    }
}

pub open spec fn name_set(names: Seq<String>) -> Set<Seq<char>> {
    names.map_values(|n: String| n@).to_set()
}

proof fn lemma_name_set_push(names: Seq<String>, name: String)
    ensures
        name_set(names.push(name)) == name_set(names).insert(name@),
{
    let before = names.map_values(|n: String| n@);
    let after = names.push(name).map_values(|n: String| n@);
    assert(after =~= before.push(name@));
    assert forall|x: Seq<char>| name_set(names.push(name)).contains(x) <==> name_set(names).insert(name@).contains(x) by {
        if after.contains(x) {
            let k = choose|k: int| 0 <= k < after.len() && after[k] == x;
            if k < before.len() {
                assert(before[k] == x);
            }
        }
        if before.contains(x) {
            let k = choose|k: int| 0 <= k < before.len() && before[k] == x;
            assert(after[k] == x);
        }
        if x == name@ {
            assert(after[before.len() as int] == x);
        }
    }
    assert(name_set(names.push(name)) =~= name_set(names).insert(name@));
}

proof fn lemma_name_set_empty()
    ensures
        name_set(Seq::<String>::empty()) == Set::<Seq<char>>::empty(),
{
    assert(name_set(Seq::<String>::empty()) =~= Set::<Seq<char>>::empty());
}

impl BlobReferences {
    /// No blob listed twice, and every listed blob has owners, none twice.
    pub closed spec fn well_formed(&self) -> bool {
        &&& forall|i: int, j: int| 0 <= i < j < self.owners@.len() ==> #[trigger] self.owners@[i].0@ != #[trigger] self.owners@[j].0@
        &&& forall|i: int| 0 <= i < self.owners@.len() ==> (#[trigger] self.owners@[i]).1@.len() > 0
        &&& forall|i: int, a: int, b: int|
            0 <= i < self.owners@.len() && 0 <= a < b < self.owners@[i].1@.len() ==> #[trigger] self.owners@[i].1@[a]@
                != #[trigger] self.owners@[i].1@[b]@
    }

    /// The projects referencing `blob`; empty when it is not tracked.
    pub closed spec fn holders(&self, blob: Seq<char>) -> Set<Seq<char>> {
        if exists|i: int| 0 <= i < self.owners@.len() && #[trigger] self.owners@[i].0@ == blob {
            let i = choose|i: int| 0 <= i < self.owners@.len() && #[trigger] self.owners@[i].0@ == blob;
            name_set(self.owners@[i].1@)
        } else {
            Set::empty()
        }
    }

    proof fn lemma_holders_at(&self, i: int)
        requires
            self.well_formed(),
            0 <= i < self.owners@.len(),
        ensures
            self.holders(self.owners@[i].0@) == name_set(self.owners@[i].1@),
    {
        let k = choose|k: int| 0 <= k < self.owners@.len() && #[trigger] self.owners@[k].0@ == self.owners@[i].0@;
        if k != i {
            if k < i {
                assert(self.owners@[k].0@ != self.owners@[i].0@);
            } else {
                assert(self.owners@[i].0@ != self.owners@[k].0@);
            }
        }
    }

    proof fn lemma_unique_len(names: Seq<String>)
        requires
            forall|a: int, b: int| 0 <= a < b < names.len() ==> #[trigger] names[a]@ != #[trigger] names[b]@,
        ensures
            name_set(names).len() == names.len(),
            name_set(names).finite(),
    {
        let views = names.map_values(|n: String| n@);
        assert(views.no_duplicates()) by {
            assert forall|a: int, b: int| 0 <= a < views.len() && 0 <= b < views.len() && a != b implies views[a] != views[b] by {
                if a < b {
                    assert(names[a]@ != names[b]@);
                } else {
                    assert(names[b]@ != names[a]@);
                }
            }
        }
        views.unique_seq_to_set();
        vstd::seq_lib::seq_to_set_is_finite(views);
    }

    fn find_blob(&self, blob: &Fingerprint) -> (found: Option<usize>)
        ensures
            found matches Some(i) ==> i < self.owners@.len() && self.owners@[i as int].0@ == blob@,
            found is None ==> forall|i: int| 0 <= i < self.owners@.len() ==> #[trigger] self.owners@[i].0@ != blob@,
    {
        let mut i: usize = 0;
        while i < self.owners.len()
            invariant
                0 <= i <= self.owners@.len(),
                forall|k: int| 0 <= k < i ==> #[trigger] self.owners@[k].0@ != blob@,
            decreases self.owners.len() - i,
        {
            if str_equal(self.owners[i].0.as_str(), blob.as_str()) {
                return Some(i);
            }
            i = i + 1;
        }
        None
    }

    pub fn new() -> (references: Self)
        ensures
            references.well_formed(),
            forall|b: Seq<char>| #[trigger] references.holders(b) == Set::<Seq<char>>::empty(),
    {
        BlobReferences { owners: Vec::new() }
    }

    /// Record that `owner` references `blob`.
    pub fn add(&mut self, blob: Fingerprint, owner: String)
        requires
            old(self).well_formed(),
        ensures
            final(self).well_formed(),
            final(self).holders(blob@) == old(self).holders(blob@).insert(owner@),
            forall|b: Seq<char>| b != blob@ ==> #[trigger] final(self).holders(b) == old(self).holders(b),
    {
        let ghost before = *self;
        match self.find_blob(&blob) {
            None => {
                let ghost key = blob@;
                let ghost who = owner@;
                let owners = vec![owner];
                self.owners.push((blob, owners));
                proof {
                    let n = self.owners@.len() - 1;
                    assert(self.owners@[n].0@ == key);
                    assert(forall|x: int| 0 <= x < n ==> #[trigger] self.owners@[x] == before.owners@[x]);
                    assert(self.well_formed()) by {
                        assert forall|x: int, y: int| 0 <= x < y < self.owners@.len() implies #[trigger] self.owners@[x].0@
                            != #[trigger] self.owners@[y].0@ by {
                            if y < n {
                                assert(before.owners@[x].0@ != before.owners@[y].0@);
                            } else {
                                assert(before.owners@[x].0@ != key);
                            }
                        }
                        assert forall|x: int| 0 <= x < self.owners@.len() implies (#[trigger] self.owners@[x]).1@.len() > 0 by {
                            if x < n {
                                assert(before.owners@[x].1@.len() > 0);
                            }
                        }
                        assert forall|x: int, a: int, c: int|
                            0 <= x < self.owners@.len() && 0 <= a < c < self.owners@[x].1@.len() implies #[trigger] self.owners@[x].1@[a]@
                                != #[trigger] self.owners@[x].1@[c]@ by {
                            if x < n {
                                assert(before.owners@[x].1@[a]@ != before.owners@[x].1@[c]@);
                            }
                        }
                    }
                    assert(name_set(self.owners@[n].1@) =~= Set::empty().insert(who)) by {
                        assert(self.owners@[n].1@ =~= Seq::<String>::empty().push(self.owners@[n].1@[0]));
                        lemma_name_set_push(Seq::<String>::empty(), self.owners@[n].1@[0]);
                        lemma_name_set_empty();
                    }
                    self.lemma_holders_at(n);
                    assert forall|b: Seq<char>| b != key implies #[trigger] self.holders(b) == before.holders(b) by {
                        if exists|i: int| 0 <= i < before.owners@.len() && #[trigger] before.owners@[i].0@ == b {
                            let i = choose|i: int| 0 <= i < before.owners@.len() && #[trigger] before.owners@[i].0@ == b;
                            before.lemma_holders_at(i);
                            assert(self.owners@[i] == before.owners@[i]);
                            self.lemma_holders_at(i);
                        } else {
                            assert(!exists|i: int| 0 <= i < self.owners@.len() && #[trigger] self.owners@[i].0@ == b) by {
                                if exists|i: int| 0 <= i < self.owners@.len() && #[trigger] self.owners@[i].0@ == b {
                                    let i = choose|i: int| 0 <= i < self.owners@.len() && #[trigger] self.owners@[i].0@ == b;
                                    if i < n {
                                        assert(before.owners@[i].0@ == b);
                                    }
                                }
                            }
                        }
                    }
                    assert(before.holders(key) =~= Set::empty()) by {
                        if exists|i: int| 0 <= i < before.owners@.len() && #[trigger] before.owners@[i].0@ == key {
                            let i = choose|i: int| 0 <= i < before.owners@.len() && #[trigger] before.owners@[i].0@ == key;
                            assert(before.owners@[i].0@ != key);
                        }
                    }
                }
            },
            Some(i) => {
                let (b, mut list) = self.owners.remove(i);
                let mut present = false;
                let mut k: usize = 0;
                while k < list.len()
                    invariant
                        0 <= k <= list@.len(),
                        !present ==> forall|a: int| 0 <= a < k ==> #[trigger] list@[a]@ != owner@,
                        present ==> exists|a: int| 0 <= a < list@.len() && #[trigger] list@[a]@ == owner@,
                    decreases list.len() - k,
                {
                    if str_equal(list[k].as_str(), owner.as_str()) {
                        present = true;
                    }
                    k = k + 1;
                }
                let ghost old_list = list@;
                if !present {
                    list.push(owner);
                }
                self.owners.insert(i, (b, list));
                proof {
                    assert(self.owners@ == before.owners@.update(i as int, self.owners@[i as int]));
                    assert(self.well_formed()) by {
                        assert forall|x: int, y: int| 0 <= x < y < self.owners@.len() implies #[trigger] self.owners@[x].0@
                            != #[trigger] self.owners@[y].0@ by {
                            assert(before.owners@[x].0@ != before.owners@[y].0@);
                        }
                        assert forall|x: int| 0 <= x < self.owners@.len() implies (#[trigger] self.owners@[x]).1@.len() > 0 by {
                            assert(before.owners@[x].1@.len() > 0);
                        }
                        assert forall|x: int, a: int, c: int|
                            0 <= x < self.owners@.len() && 0 <= a < c < self.owners@[x].1@.len() implies #[trigger] self.owners@[x].1@[a]@
                                != #[trigger] self.owners@[x].1@[c]@ by {
                            if x != i {
                                assert(before.owners@[x].1@[a]@ != before.owners@[x].1@[c]@);
                            } else if c < old_list.len() {
                                assert(old_list[a]@ != old_list[c]@);
                            } else {
                                assert(!present);
                                assert(old_list[a]@ != owner@);
                            }
                        }
                    }
                    before.lemma_holders_at(i as int);
                    self.lemma_holders_at(i as int);
                    assert(name_set(list@) =~= name_set(old_list).insert(owner@)) by {
                        if present {
                            let a = choose|a: int| 0 <= a < old_list.len() && #[trigger] old_list[a]@ == owner@;
                            assert(old_list.map_values(|s: String| s@)[a] == owner@);
                            assert(name_set(old_list).contains(owner@));
                        } else {
                            lemma_name_set_push(old_list, list@[old_list.len() as int]);
                            assert(list@ =~= old_list.push(list@[old_list.len() as int]));
                        }
                    }
                    assert forall|b: Seq<char>| b != blob@ implies #[trigger] self.holders(b) == before.holders(b) by {
                        if exists|x: int| 0 <= x < before.owners@.len() && #[trigger] before.owners@[x].0@ == b {
                            let x = choose|x: int| 0 <= x < before.owners@.len() && #[trigger] before.owners@[x].0@ == b;
                            before.lemma_holders_at(x);
                            self.lemma_holders_at(x);
                        } else {
                            assert(!exists|x: int| 0 <= x < self.owners@.len() && #[trigger] self.owners@[x].0@ == b) by {
                                if exists|x: int| 0 <= x < self.owners@.len() && #[trigger] self.owners@[x].0@ == b {
                                    let x = choose|x: int| 0 <= x < self.owners@.len() && #[trigger] self.owners@[x].0@ == b;
                                    assert(before.owners@[x].0@ == b);
                                }
                            }
                        }
                    }
                }
            },
        }
    }

    /// Drop `owner`'s reference to `blob`; `true` when that was the last one,
    /// so the blob itself may go.
    pub fn remove(&mut self, blob: &Fingerprint, owner: &str) -> (released: bool)
        requires
            old(self).well_formed(),
        ensures
            final(self).well_formed(),
            final(self).holders(blob@) == old(self).holders(blob@).remove(owner@),
            forall|b: Seq<char>| b != blob@ ==> #[trigger] final(self).holders(b) == old(self).holders(b),
            released == (!old(self).holders(blob@).is_empty() && old(self).holders(blob@).remove(owner@).is_empty()),
    {
        let ghost before = *self;
        match self.find_blob(blob) {
            None => {
                proof {
                    assert(before.holders(blob@) =~= Set::empty());
                    assert(before.holders(blob@).remove(owner@) =~= before.holders(blob@));
                }
                false
            },
            Some(i) => {
                let (b, list) = self.owners.remove(i);
                let mut kept: Vec<String> = Vec::new();
                let mut k: usize = 0;
                while k < list.len()
                    invariant
                        0 <= k <= list@.len(),
                        forall|a: int, c: int| 0 <= a < c < list@.len() ==> #[trigger] list@[a]@ != #[trigger] list@[c]@,
                        name_set(kept@) == name_set(list@.subrange(0, k as int)).remove(owner@),
                        forall|a: int| 0 <= a < kept@.len() ==> #[trigger] kept@[a]@ != owner@,
                        forall|a: int, c: int| 0 <= a < c < kept@.len() ==> #[trigger] kept@[a]@ != #[trigger] kept@[c]@,
                        forall|a: int| 0 <= a < kept@.len() ==> exists|x: int| 0 <= x < k && #[trigger] list@[x]@ == #[trigger] kept@[a]@,
                    decreases list.len() - k,
                {
                    let ghost prefix = list@.subrange(0, k as int);
                    assert(list@.subrange(0, k + 1) =~= prefix.push(list@[k as int]));
                    proof {
                        lemma_name_set_push(prefix, list@[k as int]);
                    }
                    if !str_equal(list[k].as_str(), owner) {
                        let ghost before_kept = kept@;
                        kept.push(list[k].clone());
                        proof {
                            lemma_name_set_push(before_kept, kept@[before_kept.len() as int]);
                            assert(kept@ =~= before_kept.push(kept@[before_kept.len() as int]));
                        }
                        assert forall|a: int, c: int| 0 <= a < c < kept@.len() implies #[trigger] kept@[a]@ != #[trigger] kept@[c]@ by {
                            if c == kept@.len() - 1 {
                                let x = choose|x: int| 0 <= x < k && #[trigger] list@[x]@ == kept@[a]@;
                                assert(list@[x]@ != list@[k as int]@);
                            }
                        }
                    }
                    assert(name_set(kept@) =~= name_set(list@.subrange(0, k + 1)).remove(owner@));
                    k = k + 1;
                }
                assert(list@.subrange(0, list@.len() as int) =~= list@);
                let ghost key = b@;
                if kept.len() == 0 {
                    proof {
                        assert(name_set(kept@) =~= Set::empty()) by {
                            assert(kept@.map_values(|s: String| s@) =~= Seq::<Seq<char>>::empty());
                        }
                    }
                    let ghost removed = self.owners@;
                    proof {
                        before.lemma_holders_at(i as int);
                        assert(removed == before.owners@.remove(i as int));
                        assert(self.well_formed()) by {
                            assert forall|x: int, y: int| 0 <= x < y < self.owners@.len() implies #[trigger] self.owners@[x].0@
                                != #[trigger] self.owners@[y].0@ by {
                                let x0 = if x < i { x } else { x + 1 };
                                let y0 = if y < i { y } else { y + 1 };
                                assert(before.owners@[x0].0@ != before.owners@[y0].0@);
                            }
                            assert forall|x: int| 0 <= x < self.owners@.len() implies (#[trigger] self.owners@[x]).1@.len() > 0 by {
                                let x0 = if x < i { x } else { x + 1 };
                                assert(before.owners@[x0].1@.len() > 0);
                            }
                            assert forall|x: int, a: int, c: int|
                                0 <= x < self.owners@.len() && 0 <= a < c < self.owners@[x].1@.len() implies #[trigger] self.owners@[x].1@[a]@
                                    != #[trigger] self.owners@[x].1@[c]@ by {
                                let x0 = if x < i { x } else { x + 1 };
                                assert(before.owners@[x0].1@[a]@ != before.owners@[x0].1@[c]@);
                            }
                        }
                        assert(self.holders(key) =~= Set::empty()) by {
                            if exists|x: int| 0 <= x < self.owners@.len() && #[trigger] self.owners@[x].0@ == key {
                                let x = choose|x: int| 0 <= x < self.owners@.len() && #[trigger] self.owners@[x].0@ == key;
                                if x < i {
                                    assert(before.owners@[x].0@ != before.owners@[i as int].0@);
                                } else {
                                    assert(before.owners@[i as int].0@ != before.owners@[x + 1].0@);
                                }
                            }
                        }
                        assert forall|c: Seq<char>| c != blob@ implies #[trigger] self.holders(c) == before.holders(c) by {
                            if exists|x: int| 0 <= x < before.owners@.len() && #[trigger] before.owners@[x].0@ == c {
                                let x = choose|x: int| 0 <= x < before.owners@.len() && #[trigger] before.owners@[x].0@ == c;
                                before.lemma_holders_at(x);
                                let y = if x < i { x } else { x - 1 };
                                assert(self.owners@[y] == before.owners@[x]);
                                self.lemma_holders_at(y);
                            } else {
                                assert(!exists|x: int| 0 <= x < self.owners@.len() && #[trigger] self.owners@[x].0@ == c) by {
                                    if exists|x: int| 0 <= x < self.owners@.len() && #[trigger] self.owners@[x].0@ == c {
                                        let x = choose|x: int| 0 <= x < self.owners@.len() && #[trigger] self.owners@[x].0@ == c;
                                        let y = if x < i { x } else { x + 1 };
                                        assert(before.owners@[y].0@ == c);
                                    }
                                }
                            }
                        }
                        Self::lemma_unique_len(list@);
                        assert(!before.holders(blob@).is_empty()) by {
                            assert(list@.len() > 0);
                            assert(name_set(list@).contains(list@[0]@)) by {
                                assert(list@.map_values(|s: String| s@)[0] == list@[0]@);
                            }
                        }
                    }
                    true
                } else {
                    let ghost kept_view = kept@;
                    self.owners.insert(i, (b, kept));
                    proof {
                        assert(self.owners@ == before.owners@.update(i as int, self.owners@[i as int]));
                        assert(self.well_formed()) by {
                            assert forall|x: int, y: int| 0 <= x < y < self.owners@.len() implies #[trigger] self.owners@[x].0@
                                != #[trigger] self.owners@[y].0@ by {
                                assert(before.owners@[x].0@ != before.owners@[y].0@);
                            }
                            assert forall|x: int| 0 <= x < self.owners@.len() implies (#[trigger] self.owners@[x]).1@.len() > 0 by {
                                assert(before.owners@[x].1@.len() > 0);
                            }
                            assert forall|x: int, a: int, c: int|
                                0 <= x < self.owners@.len() && 0 <= a < c < self.owners@[x].1@.len() implies #[trigger] self.owners@[x].1@[a]@
                                    != #[trigger] self.owners@[x].1@[c]@ by {
                                if x != i {
                                    assert(before.owners@[x].1@[a]@ != before.owners@[x].1@[c]@);
                                } else {
                                    assert(kept_view[a]@ != kept_view[c]@);
                                }
                            }
                        }
                        before.lemma_holders_at(i as int);
                        self.lemma_holders_at(i as int);
                        assert forall|c: Seq<char>| c != blob@ implies #[trigger] self.holders(c) == before.holders(c) by {
                            if exists|x: int| 0 <= x < before.owners@.len() && #[trigger] before.owners@[x].0@ == c {
                                let x = choose|x: int| 0 <= x < before.owners@.len() && #[trigger] before.owners@[x].0@ == c;
                                before.lemma_holders_at(x);
                                self.lemma_holders_at(x);
                            } else {
                                assert(!exists|x: int| 0 <= x < self.owners@.len() && #[trigger] self.owners@[x].0@ == c) by {
                                    if exists|x: int| 0 <= x < self.owners@.len() && #[trigger] self.owners@[x].0@ == c {
                                        let x = choose|x: int| 0 <= x < self.owners@.len() && #[trigger] self.owners@[x].0@ == c;
                                        assert(before.owners@[x].0@ == c);
                                    }
                                }
                            }
                        }
                        assert(name_set(kept_view).contains(kept_view[0]@)) by {
                            assert(kept_view.map_values(|s: String| s@)[0] == kept_view[0]@);
                        }
                    }
                    false
                }
            },
        }
    }

    /// How many projects reference `blob`.
    pub fn references(&self, blob: &Fingerprint) -> (count: usize)
        requires
            self.well_formed(),
        ensures
            count == self.holders(blob@).len(),
    {
        match self.find_blob(blob) {
            None => {
                assert(self.holders(blob@) =~= Set::empty());
                0
            },
            Some(i) => {
                proof {
                    self.lemma_holders_at(i as int);
                    Self::lemma_unique_len(self.owners@[i as int].1@);
                }
                self.owners[i].1.len()
            },
        }
    }
}

pub struct ProjectLease {
    pub project_id: String,
    pub holder: String,
    pub version: u64,
    pub expires_at: u64,
}

impl ProjectLease {
    /// Take or renew the edit lease. Another holder's unexpired lease makes
    /// the project read-only; every grant bumps the lease version.
    pub fn acquire(current: Option<&Self>, project_id: &str, holder: &str, now: u64, ttl: u64) -> (result: Result<Self, &'static str>)
        requires
            current matches Some(lease) ==> lease.version < u64::MAX,
        ensures
            ttl == 0 ==> (result matches Err(m) && m@ == "lease TTL is zero"@),
            ttl != 0 && (current matches Some(lease) && lease.expires_at > now && lease.holder@ != holder@) ==> (result matches Err(m) && m@
                == "project is read-only while another editor holds the lease"@),
            result is Ok <==> ttl != 0 && !(current matches Some(lease) && lease.expires_at > now && lease.holder@ != holder@),
            result matches Ok(lease) ==> lease.project_id@ == project_id@ && lease.holder@ == holder@
                && lease.version == (match current {
                    Some(previous) => previous.version + 1,
                    None => 1,
                }) && lease.expires_at == (if now + ttl > u64::MAX { u64::MAX as int } else { now + ttl }),
    {
        if ttl == 0 {
            return Err("lease TTL is zero");
        }
        match current {
            Some(lease) => {
                if lease.expires_at > now && !str_equal(lease.holder.as_str(), holder) {
                    return Err("project is read-only while another editor holds the lease");
                }
            },
            None => {},
        }
        let version = match current {
            Some(lease) => lease.version + 1,
            None => 1,
        };
        Ok(ProjectLease {
            project_id: project_id.to_owned(),
            holder: holder.to_owned(),
            version,
            expires_at: now.saturating_add(ttl),
        })
    }
}

pub struct SharingPolicy {
    pub enabled: bool,
    /// Who may open the shared project, as a set.
    pub recipients: Vec<String>,
    /// Which media the share includes, as a set.
    pub media_scope: Vec<String>,
    pub encryption: Option<String>,
    pub revocable: bool,
}

impl SharingPolicy {
    /// Sharing off is always valid; sharing on needs recipients, a media
    /// scope, `age` or `xchacha20-poly1305` encryption, and revocability.
    pub fn validate(&self) -> (ok: bool)
        ensures
            ok == (!self.enabled || (self.recipients@.len() > 0 && self.media_scope@.len() > 0 && (match self.encryption {
                Some(e) => e@ == "age"@ || e@ == "xchacha20-poly1305"@,
                None => false,
            }) && self.revocable)),
    {
        if !self.enabled {
            return true;
        }
        let encrypted = match &self.encryption {
            Some(e) => str_equal(e.as_str(), "age") || str_equal(e.as_str(), "xchacha20-poly1305"),
            None => false,
        };
        self.recipients.len() > 0 && self.media_scope.len() > 0 && encrypted && self.revocable
    }
}

} // verus!
