//! A local-first project replica: operations keyed by actor and sequence,
//! replayed idempotently, synced by state vector, undone selectively.

use vstd::prelude::*;

use crate::fingerprint::Fingerprint;
use crate::project_collaboration::{is_plain_token, lookup, lookup_value, plain_token};
use crate::filter_graph::join_commas;
use crate::text::{
    byte_len, chars_of, lemma_seq_lt_irreflexive, lemma_seq_lt_transitive, lemma_seq_lt_trichotomy, push_str,
    push_zero_padded, seq_lt, str_equal, str_less, string_of, zero_padded,
};

verus! {

/// One edit made by an actor. The payload is its JSON value written as
/// compact JSON text.
pub struct ProjectOperation {
    pub id: String,
    pub actor: String,
    pub sequence: u64,
    pub transaction: String,
    pub kind: String,
    pub payload: String,
}

impl Clone for ProjectOperation {
    fn clone(&self) -> (copy: Self)
        ensures
            copy == *self,
    {
        ProjectOperation {
            id: self.id.clone(),
            actor: self.actor.clone(),
            sequence: self.sequence,
            transaction: self.transaction.clone(),
            kind: self.kind.clone(),
            payload: self.payload.clone(),
        }
    }
}

pub open spec fn json_ws(c: char) -> bool {
    c == ' ' || c == '\t' || c == '\n' || c == '\r'
}

/// Where a JSON string whose body starts at `i` closes: its first quote that
/// no backslash escapes, or the end of the text when it never closes.
pub open spec fn string_close(s: Seq<char>, i: int) -> int
    decreases s.len() - i,
{
    if i < 0 || i >= s.len() {
        s.len() as int
    } else if s[i] == '\\' {
        if i + 1 >= s.len() {
            s.len() as int
        } else {
            string_close(s, i + 2)
        }
    } else if s[i] == '"' {
        i
    } else {
        string_close(s, i + 1)
    }
}

pub proof fn lemma_string_close_bounds(s: Seq<char>, i: int)
    requires
        0 <= i <= s.len(),
    ensures
        i <= string_close(s, i) <= s.len(),
    decreases s.len() - i,
{
    if i < s.len() {
        if s[i] == '\\' {
            if i + 1 < s.len() {
                lemma_string_close_bounds(s, i + 2);
            }
        } else if s[i] != '"' {
            lemma_string_close_bounds(s, i + 1);
        }
    }
}

/// From `i` on, past JSON whitespace, a `:` comes next.
pub open spec fn colon_follows(s: Seq<char>, i: int) -> bool
    decreases s.len() - i,
{
    if i < 0 || i >= s.len() {
        false
    } else if json_ws(s[i]) {
        colon_follows(s, i + 1)
    } else {
        s[i] == ':'
    }
}

/// The object keys that carry media bytes.
pub open spec fn is_media_key(key: Seq<char>) -> bool {
    key == "mediaBytes"@ || key == "blob"@ || key == "base64"@
}

/// Reading JSON text from `i`, outside any string: a string followed by a
/// colon (an object key, at any depth) names media bytes.
pub open spec fn media_key_from(s: Seq<char>, i: int) -> bool
    decreases s.len() - i,
{
    if i < 0 || i >= s.len() {
        false
    } else if s[i] == '"' {
        let close = string_close(s, i + 1);
        proof {
            lemma_string_close_bounds(s, i + 1);
        }
        if close >= s.len() {
            false
        } else {
            (colon_follows(s, close + 1) && is_media_key(s.subrange(i + 1, close))) || media_key_from(s, close + 1)
        }
    } else {
        media_key_from(s, i + 1)
    }
}

fn find_string_close(chars: &Vec<char>, i: usize) -> (close: usize)
    requires
        i <= chars@.len(),
    ensures
        close == string_close(chars@, i as int),
{
    let mut j: usize = i;
    while j < chars.len()
        invariant
            i <= j <= chars@.len(),
            string_close(chars@, i as int) == string_close(chars@, j as int),
        decreases chars.len() - j,
    {
        if chars[j] == '\\' {
            if j + 1 >= chars.len() {
                return chars.len();
            }
            j = j + 2;
        } else if chars[j] == '"' {
            return j;
        } else {
            j = j + 1;
        }
    }
    chars.len()
}

fn colon_after(chars: &Vec<char>, i: usize) -> (found: bool)
    requires
        i <= chars@.len(),
    ensures
        found == colon_follows(chars@, i as int),
{
    let mut j: usize = i;
    while j < chars.len() && (chars[j] == ' ' || chars[j] == '\t' || chars[j] == '\n' || chars[j] == '\r')
        invariant
            i <= j <= chars@.len(),
            colon_follows(chars@, i as int) == colon_follows(chars@, j as int),
        decreases chars.len() - j,
    {
        j = j + 1;
    }
    j < chars.len() && chars[j] == ':'
}

/// `chars[lo..hi]` spells `word`.
fn range_spells(chars: &Vec<char>, lo: usize, hi: usize, word: &str) -> (same: bool)
    requires
        lo <= hi <= chars@.len(),
    ensures
        same == (chars@.subrange(lo as int, hi as int) == word@),
{
    let letters = chars_of(word);
    if hi - lo != letters.len() {
        return false;
    }
    let mut k: usize = 0;
    while k < letters.len()
        invariant
            0 <= k <= letters@.len(),
            lo <= hi <= chars@.len(),
            hi - lo == letters@.len(),
            letters@ == word@,
            forall|m: int| 0 <= m < k ==> chars@[lo + m] == letters@[m],
        decreases letters.len() - k,
    {
        if chars[lo + k] != letters[k] {
            return false;
        }
        k = k + 1;
    }
    assert(chars@.subrange(lo as int, hi as int) =~= word@);
    true
}

/// Whether some object key of the JSON text names media bytes.
pub fn contains_media_bytes(text: &str) -> (found: bool)
    ensures
        found == media_key_from(text@, 0),
{
    let chars = chars_of(text);
    let mut i: usize = 0;
    while i < chars.len()
        invariant
            0 <= i <= chars@.len(),
            chars@ == text@,
            media_key_from(text@, 0) == media_key_from(text@, i as int),
        decreases chars.len() - i,
    {
        if chars[i] == '"' {
            let close = find_string_close(&chars, i + 1);
            proof {
                lemma_string_close_bounds(chars@, i + 1);
            }
            if close >= chars.len() {
                return false;
            }
            if colon_after(&chars, close + 1) {
                if range_spells(&chars, i + 1, close, "mediaBytes") || range_spells(&chars, i + 1, close, "blob")
                    || range_spells(&chars, i + 1, close, "base64") {
                    return true;
                }
            }
            i = close + 1;
        } else {
            i = i + 1;
        }
    }
    false
}

pub const MAX_PAYLOAD_BYTES: usize = 65536;

/// Plain tokens for id, actor, transaction and kind, a positive sequence,
/// and a payload of at most 64 KiB with no key carrying media bytes.
pub open spec fn operation_valid(op: ProjectOperation) -> bool {
    &&& is_plain_token(op.id@, 128)
    &&& is_plain_token(op.actor@, 64)
    &&& is_plain_token(op.transaction@, 128)
    &&& is_plain_token(op.kind@, 64)
    &&& op.sequence > 0
    &&& byte_len(op.payload@) <= MAX_PAYLOAD_BYTES
    &&& !media_key_from(op.payload@, 0)
}

impl ProjectOperation {
    pub fn validate(&self) -> (ok: bool)
        ensures
            ok == operation_valid(*self),
    {
        plain_token(self.id.as_str(), 128) && plain_token(self.actor.as_str(), 64) && plain_token(
            self.transaction.as_str(),
            128,
        ) && plain_token(self.kind.as_str(), 64) && self.sequence > 0 && self.payload.as_str().len()
            <= MAX_PAYLOAD_BYTES && !contains_media_bytes(self.payload.as_str())
    }
}

/// `a` is filed before `b`: by actor, then by sequence.
pub open spec fn op_before(a: ProjectOperation, b: ProjectOperation) -> bool {
    seq_lt(a.actor@, b.actor@) || (a.actor@ == b.actor@ && a.sequence < b.sequence)
}

pub open spec fn same_slot(a: ProjectOperation, b: ProjectOperation) -> bool {
    a.actor@ == b.actor@ && a.sequence == b.sequence
}

proof fn lemma_op_order(a: ProjectOperation, b: ProjectOperation)
    ensures
        op_before(a, b) || op_before(b, a) || same_slot(a, b),
        !(op_before(a, b) && op_before(b, a)),
        !(op_before(a, b) && same_slot(a, b)),
{
    lemma_seq_lt_trichotomy(a.actor@, b.actor@);
    lemma_seq_lt_irreflexive(a.actor@);
}

proof fn lemma_op_before_transitive(a: ProjectOperation, b: ProjectOperation, c: ProjectOperation)
    requires
        op_before(a, b),
        op_before(b, c),
    ensures
        op_before(a, c),
{
    if seq_lt(a.actor@, b.actor@) && seq_lt(b.actor@, c.actor@) {
        lemma_seq_lt_transitive(a.actor@, b.actor@, c.actor@);
    }
}

/// Operations strictly increase by slot, so no slot is taken twice.
pub open spec fn ops_sorted(ops: Seq<ProjectOperation>) -> bool {
    forall|i: int, j: int| 0 <= i < j < ops.len() ==> op_before(#[trigger] ops[i], #[trigger] ops[j])
}

pub open spec fn ids_unique(ops: Seq<ProjectOperation>) -> bool {
    forall|i: int, j: int| 0 <= i < j < ops.len() ==> #[trigger] ops[i].id@ != #[trigger] ops[j].id@
}

pub open spec fn has_operation_id(ops: Seq<ProjectOperation>, id: Seq<char>) -> bool {
    exists|i: int| 0 <= i < ops.len() && #[trigger] ops[i].id@ == id
}

pub open spec fn slot_taken(ops: Seq<ProjectOperation>, op: ProjectOperation) -> bool {
    exists|i: int| 0 <= i < ops.len() && same_slot(#[trigger] ops[i], op)
}

/// What replaying an operation does.
pub enum ReplayOutcome {
    /// The operation breaks a rule; nothing changes.
    Invalid,
    /// An operation with its id is already recorded; nothing changes.
    Known,
    /// Another operation holds its actor and sequence; nothing changes.
    Conflict,
    /// The operation is recorded.
    Added,
}

pub open spec fn replay_outcome(ops: Seq<ProjectOperation>, op: ProjectOperation) -> ReplayOutcome {
    if !operation_valid(op) {
        ReplayOutcome::Invalid
    } else if has_operation_id(ops, op.id@) {
        ReplayOutcome::Known
    } else if slot_taken(ops, op) {
        ReplayOutcome::Conflict
    } else {
        ReplayOutcome::Added
    }
}

/// The operations of a project as one replica has them, in slot order.
pub struct ProjectReplica {
    operations: Vec<ProjectOperation>,
}

impl View for ProjectReplica {
    type V = Seq<ProjectOperation>;

    closed spec fn view(&self) -> Seq<ProjectOperation> {
        self.operations@
    }
}

impl Default for ProjectReplica {
    fn default() -> (replica: Self)
        ensures
            replica.well_formed(),
            replica@.len() == 0,
    {
        ProjectReplica { operations: Vec::new() }
    }
}

impl ProjectReplica {
    /// Slots increase, ids do not repeat, and every operation is valid.
    pub open spec fn well_formed(&self) -> bool {
        &&& ops_sorted(self@)
        &&& ids_unique(self@)
        &&& forall|i: int| 0 <= i < self@.len() ==> operation_valid(#[trigger] self@[i])
    }

    pub fn len(&self) -> (count: usize)
        ensures
            count == self@.len(),
    {
        self.operations.len()
    }

    pub fn is_empty(&self) -> (empty: bool)
        ensures
            empty == (self@.len() == 0),
    {
        self.operations.len() == 0
    }

    fn id_recorded(&self, id: &str) -> (found: bool)
        ensures
            found == has_operation_id(self@, id@),
    {
        let mut i: usize = 0;
        while i < self.operations.len()
            invariant
                0 <= i <= self@.len(),
                forall|k: int| 0 <= k < i ==> self@[k].id@ != id@,
            decreases self.operations.len() - i,
        {
            if str_equal(self.operations[i].id.as_str(), id) {
                return true;
            }
            i = i + 1;
        }
        false
    }

    /// Record an operation. Replaying a known operation changes nothing and
    /// reports `false`.
    pub fn apply(&mut self, operation: ProjectOperation) -> (result: Result<bool, &'static str>)
        requires
            old(self).well_formed(),
        ensures
            final(self).well_formed(),
            replay_outcome(old(self)@, operation) is Invalid ==> (result matches Err(m) && m@
                == "invalid project operation"@) && final(self)@ == old(self)@,
            replay_outcome(old(self)@, operation) is Known ==> result == Ok::<bool, &'static str>(false) && final(self)@
                == old(self)@,
            replay_outcome(old(self)@, operation) is Conflict ==> (result matches Err(m) && m@
                == "actor sequence conflict"@) && final(self)@ == old(self)@,
            replay_outcome(old(self)@, operation) is Added ==> result == Ok::<bool, &'static str>(true) && exists|p: int|
                0 <= p <= old(self)@.len() && final(self)@ == old(self)@.insert(p, operation),
    {
        if !operation.validate() {
            return Err("invalid project operation");
        }
        if self.id_recorded(operation.id.as_str()) {
            return Ok(false);
        }
        let ghost before = self@;
        let mut i: usize = 0;
        while i < self.operations.len() && (str_less(self.operations[i].actor.as_str(), operation.actor.as_str()) || (
        str_equal(self.operations[i].actor.as_str(), operation.actor.as_str()) && self.operations[i].sequence
            < operation.sequence))
            invariant
                0 <= i <= before.len(),
                self@ == before,
                ops_sorted(before),
                forall|k: int| 0 <= k < i ==> op_before(#[trigger] before[k], operation),
            decreases self.operations.len() - i,
        {
            i = i + 1;
        }
        if i < self.operations.len() && str_equal(self.operations[i].actor.as_str(), operation.actor.as_str())
            && self.operations[i].sequence == operation.sequence {
            assert(same_slot(before[i as int], operation));
            return Err("actor sequence conflict");
        }
        proof {
            if i < before.len() {
                lemma_op_order(operation, before[i as int]);
            }
            assert forall|j: int| i <= j < before.len() implies op_before(operation, #[trigger] before[j]) by {
                if j > i {
                    lemma_op_before_transitive(operation, before[i as int], before[j]);
                }
            }
            assert(!slot_taken(before, operation)) by {
                if slot_taken(before, operation) {
                    let k = choose|k: int| 0 <= k < before.len() && same_slot(#[trigger] before[k], operation);
                    lemma_op_order(before[k], operation);
                    if k < i {
                        assert(op_before(before[k], operation));
                    } else {
                        assert(op_before(operation, before[k]));
                        lemma_op_order(operation, before[k]);
                    }
                }
            }
        }
        self.operations.insert(i, operation);
        proof {
            let after = self@;
            assert(after == before.insert(i as int, operation));
            assert forall|a: int, b: int| 0 <= a < b < after.len() implies op_before(#[trigger] after[a], #[trigger] after[b]) by {
                if b < i {
                } else if a < i && b == i {
                } else if a < i {
                    assert(after[b] == before[b - 1]);
                } else if a == i {
                    assert(after[b] == before[b - 1]);
                } else {
                    assert(after[a] == before[a - 1]);
                    assert(after[b] == before[b - 1]);
                }
            }
            assert forall|a: int, b: int| 0 <= a < b < after.len() implies #[trigger] after[a].id@ != #[trigger] after[b].id@ by {
                if b < i {
                } else if a < i && b == i {
                    assert(before[a].id@ != operation.id@);
                } else if a < i {
                    assert(after[b] == before[b - 1]);
                } else if a == i {
                    assert(after[b] == before[b - 1]);
                    assert(before[b - 1].id@ != operation.id@);
                } else {
                    assert(after[a] == before[a - 1]);
                    assert(after[b] == before[b - 1]);
                }
            }
            assert forall|k: int| 0 <= k < after.len() implies operation_valid(#[trigger] after[k]) by {
                if k < i {
                    assert(after[k] == before[k]);
                } else if k > i {
                    assert(after[k] == before[k - 1]);
                }
            }
        }
        Ok(true)
    }
}

/// Replaying an operation a second time changes nothing: once it has been
/// added, the replica knows it.
pub proof fn law_replay_is_idempotent(ops: Seq<ProjectOperation>, operation: ProjectOperation, p: int)
    requires
        replay_outcome(ops, operation) is Added,
        0 <= p <= ops.len(),
    ensures
        replay_outcome(ops.insert(p, operation), operation) is Known,
{
    assert(ops.insert(p, operation)[p].id@ == operation.id@);
}

/// Two replicas that hold the same operations hold them in the same order:
/// the result of replay does not depend on the order operations arrived in.
pub proof fn law_replicas_with_the_same_operations_agree(a: Seq<ProjectOperation>, b: Seq<ProjectOperation>)
    requires
        ops_sorted(a),
        ops_sorted(b),
        forall|x: ProjectOperation| a.contains(x) <==> b.contains(x),
    ensures
        a == b,
    decreases a.len(),
{
    if a.len() == 0 {
        if b.len() > 0 {
            assert(b.contains(b[0]));
        }
        assert(a =~= b);
    } else {
        assert(a.contains(a[0]));
        assert(b.len() > 0);
        assert(b.contains(b[0]));
        let i = choose|i: int| 0 <= i < b.len() && b[i] == a[0];
        let j = choose|j: int| 0 <= j < a.len() && a[j] == b[0];
        if i > 0 {
            assert(op_before(b[0], b[i]));
            if j > 0 {
                assert(op_before(a[0], a[j]));
                lemma_op_order(a[0], b[0]);
            } else {
                lemma_op_order(b[0], b[0]);
                lemma_seq_lt_irreflexive(b[0].actor@);
            }
        }
        assert(a[0] == b[0]);
        let ta = a.drop_first();
        let tb = b.drop_first();
        assert forall|x: ProjectOperation| ta.contains(x) <==> tb.contains(x) by {
            if ta.contains(x) {
                let k = choose|k: int| 0 <= k < ta.len() && ta[k] == x;
                assert(a[k + 1] == x);
                assert(op_before(a[0], a[k + 1]));
                assert(b.contains(x));
                let m = choose|m: int| 0 <= m < b.len() && b[m] == x;
                if m == 0 {
                    lemma_op_order(a[0], x);
                }
                assert(tb[m - 1] == x);
            }
            if tb.contains(x) {
                let k = choose|k: int| 0 <= k < tb.len() && tb[k] == x;
                assert(b[k + 1] == x);
                assert(op_before(b[0], b[k + 1]));
                assert(a.contains(x));
                let m = choose|m: int| 0 <= m < a.len() && a[m] == x;
                if m == 0 {
                    lemma_op_order(b[0], x);
                }
                assert(ta[m - 1] == x);
            }
        }
        law_replicas_with_the_same_operations_agree(ta, tb);
        assert(a.len() == b.len());
        assert forall|k: int| 0 <= k < a.len() implies a[k] == b[k] by {
            if k > 0 {
                assert(a[k] == ta[k - 1]);
                assert(b[k] == tb[k - 1]);
            }
        }
        assert(a =~= b);
    }
}

/// The highest sequence recorded for `actor`, if any.
pub open spec fn latest_sequence(ops: Seq<ProjectOperation>, actor: Seq<char>) -> Option<u64>
    decreases ops.len(),
{
    if ops.len() == 0 {
        None
    } else {
        let rest = latest_sequence(ops.drop_last(), actor);
        if ops.last().actor@ == actor {
            match rest {
                Some(s) => if s > ops.last().sequence {
                    Some(s)
                } else {
                    Some(ops.last().sequence)
                },
                None => Some(ops.last().sequence),
            }
        } else {
            rest
        }
    }
}

/// The sequence a remote replica has seen from `actor`: zero when unknown.
pub open spec fn acknowledged(remote: Seq<(String, u64)>, actor: Seq<char>) -> u64 {
    match lookup(remote, actor) {
        Some(s) => s,
        None => 0,
    }
}

/// The operations, in slot order, that a replica at `remote` has not seen.
pub open spec fn missing_ops(ops: Seq<ProjectOperation>, remote: Seq<(String, u64)>) -> Seq<ProjectOperation>
    decreases ops.len(),
{
    if ops.len() == 0 {
        Seq::empty()
    } else {
        let rest = missing_ops(ops.drop_last(), remote);
        if ops.last().sequence > acknowledged(remote, ops.last().actor@) {
            rest.push(ops.last())
        } else {
            rest
        }
    }
}

pub open spec fn is_undo_kind(kind: Seq<char>) -> bool {
    kind.len() >= 5 && kind.subrange(0, 5) == "undo:"@
}

/// The position of the last operation of `actor`, in slot order, that is
/// not itself an undo.
pub open spec fn last_undoable(ops: Seq<ProjectOperation>, actor: Seq<char>) -> Option<int>
    decreases ops.len(),
{
    if ops.len() == 0 {
        None
    } else if ops.last().actor@ == actor && !is_undo_kind(ops.last().kind@) {
        Some(ops.len() - 1)
    } else {
        last_undoable(ops.drop_last(), actor)
    }
}

/// An operation as JSON, its fields in declaration order.
pub open spec fn operation_json(op: ProjectOperation) -> Seq<char> {
    "{\"id\":\""@ + op.id@ + "\",\"actor\":\""@ + op.actor@ + "\",\"sequence\":"@ + zero_padded(op.sequence as nat, 1)
        + ",\"transaction\":\""@ + op.transaction@ + "\",\"kind\":\""@ + op.kind@ + "\",\"payload\":"@ + op.payload@
        + "}"@
}

/// The operations as a JSON array, in slot order.
pub open spec fn operations_json(ops: Seq<ProjectOperation>) -> Seq<char> {
    "["@ + join_commas(ops.map_values(|op: ProjectOperation| operation_json(op))) + "]"@
}

fn has_undo_prefix(kind: &str) -> (undo: bool)
    ensures
        undo == is_undo_kind(kind@),
{
    let chars = chars_of(kind);
    if chars.len() < 5 {
        return false;
    }
    let same = range_spells(&chars, 0, 5, "undo:");
    same
}

fn push_operation_json(out: &mut Vec<char>, op: &ProjectOperation)
    ensures
        final(out)@ == old(out)@ + operation_json(*op),
{
    push_str(out, "{\"id\":\"");
    push_str(out, op.id.as_str());
    push_str(out, "\",\"actor\":\"");
    push_str(out, op.actor.as_str());
    push_str(out, "\",\"sequence\":");
    push_zero_padded(out, op.sequence, 1);
    push_str(out, ",\"transaction\":\"");
    push_str(out, op.transaction.as_str());
    push_str(out, "\",\"kind\":\"");
    push_str(out, op.kind.as_str());
    push_str(out, "\",\"payload\":");
    push_str(out, op.payload.as_str());
    push_str(out, "}");
    assert(final(out)@ =~= old(out)@ + operation_json(*op));
}

impl ProjectReplica {
    /// For each actor, the highest sequence recorded, in actor order.
    pub fn state_vector(&self) -> (vector: Vec<(String, u64)>)
        requires
            self.well_formed(),
        ensures
            forall|a: int, b: int| 0 <= a < b < vector@.len() ==> seq_lt(#[trigger] vector@[a].0@, #[trigger] vector@[b].0@),
            forall|k: int| 0 <= k < vector@.len() ==> latest_sequence(self@, (#[trigger] vector@[k]).0@) == Some(vector@[k].1),
            forall|i: int| 0 <= i < self@.len() ==> exists|k: int| 0 <= k < vector@.len() && #[trigger] vector@[k].0@ == (#[trigger] self@[i]).actor@,
    {
        let ghost ops = self@;
        let mut vector: Vec<(String, u64)> = Vec::new();
        let mut i: usize = 0;
        while i < self.operations.len()
            invariant
                0 <= i <= ops.len(),
                ops == self@,
                ops_sorted(ops),
                forall|a: int, b: int| 0 <= a < b < vector@.len() ==> seq_lt(#[trigger] vector@[a].0@, #[trigger] vector@[b].0@),
                forall|k: int| 0 <= k < vector@.len() ==> latest_sequence(ops.subrange(0, i as int), (#[trigger] vector@[k]).0@) == Some(vector@[k].1),
                forall|j: int| 0 <= j < i ==> exists|k: int| 0 <= k < vector@.len() && #[trigger] vector@[k].0@ == (#[trigger] ops[j]).actor@,
                i > 0 ==> vector@.len() > 0 && vector@.last().0@ == ops[i - 1].actor@,
                i == 0 ==> vector@.len() == 0,
                forall|k: int, j: int| 0 <= k < vector@.len() && i <= j < ops.len() ==> !seq_lt((#[trigger] ops[j]).actor@, (#[trigger] vector@[k]).0@),
            decreases self.operations.len() - i,
        {
            let op = &self.operations[i];
            let ghost prefix = ops.subrange(0, i as int);
            let ghost next = ops.subrange(0, i + 1);
            assert(next.drop_last() =~= prefix);
            assert(next.last() == ops[i as int]);
            let same = vector.len() > 0 && str_equal(vector[vector.len() - 1].0.as_str(), op.actor.as_str());
            if same {
                let last = vector.len() - 1;
                let ghost before = vector@;
                proof {
                    assert(op_before(ops[i - 1], ops[i as int]));
                    lemma_seq_lt_irreflexive(op.actor@);
                    assert(latest_sequence(prefix, op.actor@) == Some(before[last as int].1));
                    assert(before[last as int].1 == ops[i - 1].sequence) by {
                        lemma_latest_is_last(prefix, op.actor@);
                    }
                }
                vector.set(last, (op.actor.clone(), op.sequence));
                proof {
                    assert forall|k: int| 0 <= k < vector@.len() implies latest_sequence(next, (#[trigger] vector@[k]).0@)
                        == Some(vector@[k].1) by {
                        if k < last {
                            assert(vector@[k] == before[k]);
                            assert(seq_lt(before[k].0@, before[last as int].0@));
                            lemma_seq_lt_irreflexive(before[k].0@);
                        }
                    }
                    assert forall|j: int| 0 <= j < i + 1 implies exists|k: int| 0 <= k < vector@.len() && #[trigger] vector@[k].0@ == (#[trigger] ops[j]).actor@ by {
                        if j < i {
                            let k = choose|k: int| 0 <= k < before.len() && #[trigger] before[k].0@ == ops[j].actor@;
                            assert(vector@[k].0@ == before[k].0@);
                        } else {
                            assert(vector@[last as int].0@ == ops[j].actor@);
                        }
                    }
                    assert forall|a: int, b: int| 0 <= a < b < vector@.len() implies seq_lt(#[trigger] vector@[a].0@, #[trigger] vector@[b].0@) by {
                        assert(vector@[a].0@ == before[a].0@);
                        assert(vector@[b].0@ == before[b].0@);
                    }
                }
            } else {
                let ghost before = vector@;
                proof {
                    if before.len() > 0 {
                        lemma_op_order(ops[i - 1], ops[i as int]);
                        assert(op_before(ops[i - 1], ops[i as int]));
                        assert(seq_lt(before.last().0@, op.actor@));
                    }
                    assert(latest_sequence(prefix, op.actor@) is None) by {
                        lemma_absent_actor(prefix, op.actor@, before);
                    }
                }
                vector.push((op.actor.clone(), op.sequence));
                proof {
                    assert forall|k: int| 0 <= k < vector@.len() implies latest_sequence(next, (#[trigger] vector@[k]).0@)
                        == Some(vector@[k].1) by {
                        if k < before.len() {
                            assert(vector@[k] == before[k]);
                            if before.len() > 0 {
                                if k < before.len() - 1 {
                                    lemma_seq_lt_transitive(before[k].0@, before.last().0@, op.actor@);
                                }
                            }
                            lemma_seq_lt_irreflexive(op.actor@);
                        }
                    }
                    assert forall|j: int| 0 <= j < i + 1 implies exists|k: int| 0 <= k < vector@.len() && #[trigger] vector@[k].0@ == (#[trigger] ops[j]).actor@ by {
                        if j < i {
                            let k = choose|k: int| 0 <= k < before.len() && #[trigger] before[k].0@ == ops[j].actor@;
                            assert(vector@[k].0@ == before[k].0@);
                        } else {
                            assert(vector@[before.len() as int].0@ == ops[j].actor@);
                        }
                    }
                    assert forall|a: int, b: int| 0 <= a < b < vector@.len() implies seq_lt(#[trigger] vector@[a].0@, #[trigger] vector@[b].0@) by {
                        if b < before.len() {
                            assert(vector@[a].0@ == before[a].0@);
                            assert(vector@[b].0@ == before[b].0@);
                        } else if a < before.len() - 1 {
                            assert(vector@[a].0@ == before[a].0@);
                            lemma_seq_lt_transitive(before[a].0@, before.last().0@, op.actor@);
                        } else {
                            assert(vector@[a].0@ == before[a].0@);
                        }
                    }
                }
            }
            proof {
                assert forall|k: int, j: int| 0 <= k < vector@.len() && i + 1 <= j < ops.len() implies !seq_lt((#[trigger] ops[j]).actor@, (#[trigger] vector@[k]).0@) by {
                    assert(op_before(ops[i as int], ops[j]));
                    lemma_seq_lt_trichotomy(ops[j].actor@, vector@[k].0@);
                    lemma_seq_lt_trichotomy(ops[i as int].actor@, vector@[k].0@);
                    if seq_lt(ops[j].actor@, vector@[k].0@) {
                        if seq_lt(ops[i as int].actor@, ops[j].actor@) {
                            lemma_seq_lt_transitive(ops[i as int].actor@, ops[j].actor@, vector@[k].0@);
                        }
                    }
                }
            }
            i = i + 1;
        }
        assert(ops.subrange(0, ops.len() as int) =~= ops);
        vector
    }
}

impl ProjectReplica {
    /// The operations, in slot order, that a replica whose state vector is
    /// `remote` has not seen.
    pub fn missing_for(&self, remote: &[(String, u64)]) -> (missing: Vec<ProjectOperation>)
        ensures
            missing@ == missing_ops(self@, remote@),
            forall|op: ProjectOperation|
                #[trigger] missing@.contains(op) <==> self@.contains(op) && op.sequence > match lookup(
                    remote@,
                    op.actor@,
                ) {
                    Some(s) => s,
                    None => 0,
                },
    {
        proof {
            law_missing_are_exactly_the_unseen(self@, remote@);
        }
        let ghost ops = self@;
        let mut missing: Vec<ProjectOperation> = Vec::new();
        let mut i: usize = 0;
        while i < self.operations.len()
            invariant
                0 <= i <= ops.len(),
                ops == self@,
                missing@ == missing_ops(ops.subrange(0, i as int), remote@),
            decreases self.operations.len() - i,
        {
            let op = &self.operations[i];
            let ghost next = ops.subrange(0, i + 1);
            assert(next.drop_last() =~= ops.subrange(0, i as int));
            assert(next.last() == ops[i as int]);
            let seen = match lookup_value(remote, op.actor.as_str()) {
                Some(s) => s,
                None => 0,
            };
            if op.sequence > seen {
                missing.push(op.clone());
            }
            i = i + 1;
        }
        assert(ops.subrange(0, ops.len() as int) =~= ops);
        missing
    }

    /// The highest sequence recorded for `actor`.
    fn latest_of(&self, actor: &str) -> (latest: Option<u64>)
        ensures
            latest == latest_sequence(self@, actor@),
    {
        let ghost ops = self@;
        let mut latest: Option<u64> = None;
        let mut i: usize = 0;
        while i < self.operations.len()
            invariant
                0 <= i <= ops.len(),
                ops == self@,
                latest == latest_sequence(ops.subrange(0, i as int), actor@),
            decreases self.operations.len() - i,
        {
            let op = &self.operations[i];
            let ghost next = ops.subrange(0, i + 1);
            assert(next.drop_last() =~= ops.subrange(0, i as int));
            assert(next.last() == ops[i as int]);
            if str_equal(op.actor.as_str(), actor) {
                latest = match latest {
                    Some(s) => if s > op.sequence {
                        Some(s)
                    } else {
                        Some(op.sequence)
                    },
                    None => Some(op.sequence),
                };
            }
            i = i + 1;
        }
        assert(ops.subrange(0, ops.len() as int) =~= ops);
        latest
    }

    /// An operation that undoes the last operation of `actor` that is not
    /// itself an undo, as that actor's next operation; none when there is no
    /// such operation.
    pub fn selective_undo(&self, actor: &str) -> (undo: Option<ProjectOperation>)
        requires
            latest_sequence(self@, actor@) matches Some(s) ==> s < u64::MAX,
        ensures
            undo is Some <==> last_undoable(self@, actor@) is Some,
            undo matches Some(u) ==> {
                let target = self@[last_undoable(self@, actor@).unwrap()];
                &&& u.id@ == "undo:"@ + target.id@
                &&& u.actor@ == actor@
                &&& u.sequence == (match latest_sequence(self@, actor@) {
                    Some(s) => s + 1,
                    None => 1,
                })
                &&& u.transaction@ == "undo:"@ + target.transaction@
                &&& u.kind@ == "undo:"@ + target.kind@
                &&& u.payload@ == "{\"operationId\":\""@ + target.id@ + "\"}"@
            },
    {
        let ghost ops = self@;
        let mut i: usize = self.operations.len();
        assert(ops.subrange(0, ops.len() as int) =~= ops);
        while i > 0
            invariant
                0 <= i <= ops.len(),
                ops == self@,
                latest_sequence(ops, actor@) matches Some(s) ==> s < u64::MAX,
                last_undoable(ops, actor@) == last_undoable(ops.subrange(0, i as int), actor@),
            decreases i,
        {
            let op = &self.operations[i - 1];
            let ghost prefix = ops.subrange(0, i as int);
            assert(prefix.drop_last() =~= ops.subrange(0, i - 1));
            assert(prefix.last() == ops[i - 1]);
            if str_equal(op.actor.as_str(), actor) && !has_undo_prefix(op.kind.as_str()) {
                let sequence = match self.latest_of(actor) {
                    Some(s) => s + 1,
                    None => 1,
                };
                let mut id: Vec<char> = Vec::new();
                push_str(&mut id, "undo:");
                push_str(&mut id, op.id.as_str());
                let mut transaction: Vec<char> = Vec::new();
                push_str(&mut transaction, "undo:");
                push_str(&mut transaction, op.transaction.as_str());
                let mut kind: Vec<char> = Vec::new();
                push_str(&mut kind, "undo:");
                push_str(&mut kind, op.kind.as_str());
                let mut payload: Vec<char> = Vec::new();
                push_str(&mut payload, "{\"operationId\":\"");
                push_str(&mut payload, op.id.as_str());
                push_str(&mut payload, "\"}");
                return Some(
                    ProjectOperation {
                        id: string_of(id.as_slice()),
                        actor: actor.to_owned(),
                        sequence,
                        transaction: string_of(transaction.as_slice()),
                        kind: string_of(kind.as_slice()),
                        payload: string_of(payload.as_slice()),
                    },
                );
            }
            i = i - 1;
        }
        assert(ops.subrange(0, 0) =~= Seq::<ProjectOperation>::empty());
        None
    }

    /// The digest of the operations, in slot order, written as a JSON array.
    pub fn fingerprint(&self) -> (fingerprint: Fingerprint)
        ensures
            fingerprint@ == crate::fingerprint::hex_lower(crate::fingerprint::sha256(vstd::utf8::encode_utf8(operations_json(self@)))),
    {
        let ghost ops = self@;
        let ghost parts = ops.map_values(|op: ProjectOperation| operation_json(op));
        let mut out: Vec<char> = Vec::new();
        out.push('[');
        let mut i: usize = 0;
        while i < self.operations.len()
            invariant
                0 <= i <= ops.len(),
                ops == self@,
                parts == ops.map_values(|op: ProjectOperation| operation_json(op)),
                out@ == seq!['['] + join_commas(parts.subrange(0, i as int)),
            decreases self.operations.len() - i,
        {
            let ghost before = parts.subrange(0, i as int);
            let ghost after = parts.subrange(0, i + 1);
            assert(after.drop_last() =~= before);
            assert(after.last() == operation_json(ops[i as int]));
            if i > 0 {
                out.push(',');
            }
            push_operation_json(&mut out, &self.operations[i]);
            assert(out@ =~= seq!['['] + join_commas(after));
            i = i + 1;
        }
        assert(parts.subrange(0, ops.len() as int) =~= parts);
        out.push(']');
        proof {
            reveal_strlit("[");
            reveal_strlit("]");
        }
        assert(out@ =~= operations_json(ops));
        let text = string_of(out.as_slice());
        let bytes = text.as_str().as_bytes();
        Fingerprint::digest(bytes)
    }
}

/// In slot order, the last operation of an actor holds its latest sequence.
proof fn lemma_latest_is_last(ops: Seq<ProjectOperation>, actor: Seq<char>)
    requires
        ops_sorted(ops),
        ops.len() > 0,
        ops.last().actor@ == actor,
    ensures
        latest_sequence(ops, actor) == Some(ops.last().sequence),
    decreases ops.len(),
{
    let rest = ops.drop_last();
    assert forall|i: int| 0 <= i < rest.len() && rest[i].actor@ == actor implies #[trigger] rest[i].sequence
        < ops.last().sequence by {
        assert(rest[i] == ops[i]);
        assert(op_before(ops[i], ops[ops.len() - 1]));
        lemma_seq_lt_irreflexive(actor);
    }
    lemma_latest_bounded(rest, actor, ops.last().sequence);
}

/// Every sequence of `actor` in a prefix is below a bound the last one meets.
proof fn lemma_latest_bounded(ops: Seq<ProjectOperation>, actor: Seq<char>, bound: u64)
    requires
        forall|i: int| 0 <= i < ops.len() && ops[i].actor@ == actor ==> #[trigger] ops[i].sequence < bound,
    ensures
        latest_sequence(ops, actor) matches Some(s) ==> s < bound,
    decreases ops.len(),
{
    if ops.len() > 0 {
        let rest = ops.drop_last();
        assert forall|i: int| 0 <= i < rest.len() && rest[i].actor@ == actor implies #[trigger] rest[i].sequence < bound by {
            assert(rest[i] == ops[i]);
        }
        lemma_latest_bounded(rest, actor, bound);
    }
}

/// An actor that no operation of `ops` carries has no latest sequence.
proof fn lemma_absent_actor(ops: Seq<ProjectOperation>, actor: Seq<char>, vector: Seq<(String, u64)>)
    requires
        forall|j: int| 0 <= j < ops.len() ==> exists|k: int| 0 <= k < vector.len() && #[trigger] vector[k].0@ == (#[trigger] ops[j]).actor@,
        forall|k: int| 0 <= k < vector.len() ==> (#[trigger] vector[k]).0@ != actor,
    ensures
        latest_sequence(ops, actor) is None,
    decreases ops.len(),
{
    if ops.len() > 0 {
        let rest = ops.drop_last();
        assert forall|j: int| 0 <= j < rest.len() implies exists|k: int| 0 <= k < vector.len() && #[trigger] vector[k].0@ == (#[trigger] rest[j]).actor@ by {
            assert(rest[j] == ops[j]);
        }
        lemma_absent_actor(rest, actor, vector);
        let k = choose|k: int| 0 <= k < vector.len() && #[trigger] vector[k].0@ == ops[ops.len() - 1].actor@;
    }
}

/// Sync sends exactly what the remote has not seen: an operation of the
/// replica is among the missing ones if and only if its sequence is above
/// the sequence the remote records for its actor (0 for an actor it does not
/// know), and the missing ones keep the replica's order.
pub proof fn law_missing_are_exactly_the_unseen(ops: Seq<ProjectOperation>, remote: Seq<(String, u64)>)
    ensures
        forall|op: ProjectOperation|
            #[trigger] missing_ops(ops, remote).contains(op) <==> ops.contains(op) && op.sequence > match lookup(
                remote,
                op.actor@,
            ) {
                Some(s) => s,
                None => 0,
            },
        missing_ops(ops, remote).len() <= ops.len(),
    decreases ops.len(),
{
    if ops.len() > 0 {
        let rest = ops.drop_last();
        law_missing_are_exactly_the_unseen(rest, remote);
        let m = missing_ops(ops, remote);
        let r = missing_ops(rest, remote);
        assert forall|op: ProjectOperation|
            #[trigger] m.contains(op) <==> ops.contains(op) && op.sequence > match lookup(remote, op.actor@) {
                Some(s) => s,
                None => 0,
            } by {
            if m.contains(op) {
                let j = choose|j: int| 0 <= j < m.len() && m[j] == op;
                if j < r.len() {
                    assert(r.contains(op));
                    let a = choose|a: int| 0 <= a < rest.len() && rest[a] == op;
                    assert(ops[a] == op);
                } else {
                    assert(op == ops.last());
                    assert(ops[ops.len() - 1] == op);
                }
            }
            if ops.contains(op) && op.sequence > acknowledged(remote, op.actor@) {
                let a = choose|a: int| 0 <= a < ops.len() && ops[a] == op;
                if a < ops.len() - 1 {
                    assert(rest[a] == op);
                    assert(r.contains(op));
                    let j = choose|j: int| 0 <= j < r.len() && r[j] == op;
                    assert(m[j] == op);
                } else {
                    assert(m[m.len() - 1] == op);
                }
            }
        }
    }
}

} // verus!
