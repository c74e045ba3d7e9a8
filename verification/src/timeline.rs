//! The editing timeline: clips in order, operations keyed by id, and the
//! move command with its inverse.

use vstd::prelude::*;

use crate::fingerprint::is_lower_hex_digit;
use crate::keyed::{find_key, has_key, insertion_point, keys_sorted, lemma_insert_sorted, lemma_to_map, to_map, Keyed};
use crate::text::{byte_len, is_blank, seq_lt, str_equal, str_is_blank};

verus! {

pub const TIMELINE_SCHEMA_VERSION: u32 = 1;

/// Not blank, and at most 128 bytes long.
pub open spec fn valid_stable_id(s: Seq<char>) -> bool {
    !is_blank(s) && byte_len(s) <= 128
}

/// The hyphenated lowercase text of a UUID: 36 characters, hyphens at 8,
/// 13, 18 and 23, lowercase hexadecimal digits elsewhere.
pub open spec fn is_uuid_text(s: Seq<char>) -> bool {
    &&& s.len() == 36
    &&& forall|i: int|
        0 <= i < 36 ==> if i == 8 || i == 13 || i == 18 || i == 23 {
            #[trigger] s[i] == '-'
        } else {
            is_lower_hex_digit(s[i])
        }
}

/// `Uuid::new_v4().to_string()`: a fresh random version-4 UUID, written in
/// the hyphenated lowercase form. Which UUID comes back is left open.
#[verifier::external_body]
fn random_uuid_text() -> (text: String)
    ensures
        is_uuid_text(text@),
{
    uuid::Uuid::new_v4().to_string()
}

#[derive(Debug)]
pub struct ClipId(String);

impl View for ClipId {
    type V = Seq<char>;

    closed spec fn view(&self) -> Seq<char> {
        self.0@
    }
}

impl ClipId {
    /// A fresh random id.
    pub fn new() -> (id: Self)
        ensures
            is_uuid_text(id@),
    {
        ClipId(random_uuid_text())
    }

    pub fn parse(value: &str) -> (result: Result<Self, TimelineError>)
        ensures
            result is Ok <==> valid_stable_id(value@),
            result matches Ok(id) ==> id@ == value@,
            result matches Err(e) ==> (e matches TimelineError::InvalidId(text) && text@ == value@),
    {
        if str_is_blank(value) || value.len() > 128 {
            return Err(TimelineError::InvalidId(value.to_owned()));
        }
        Ok(ClipId(value.to_owned()))
    }

    pub fn as_str(&self) -> (s: &str)
        ensures
            s@ == self@,
    {
        self.0.as_str()
    }
}

impl Clone for ClipId {
    fn clone(&self) -> (copy: Self)
        ensures
            copy == *self,
    {
        ClipId(self.0.clone())
    }
}

impl Default for ClipId {
    fn default() -> (id: Self)
        ensures
            is_uuid_text(id@),
    {
        ClipId::new()
    }
}

#[derive(Debug)]
pub struct OperationId(String);

impl View for OperationId {
    type V = Seq<char>;

    closed spec fn view(&self) -> Seq<char> {
        self.0@
    }
}

impl OperationId {
    /// A fresh random id.
    pub fn new() -> (id: Self)
        ensures
            is_uuid_text(id@),
    {
        OperationId(random_uuid_text())
    }

    pub fn parse(value: &str) -> (result: Result<Self, TimelineError>)
        ensures
            result is Ok <==> valid_stable_id(value@),
            result matches Ok(id) ==> id@ == value@,
            result matches Err(e) ==> (e matches TimelineError::InvalidId(text) && text@ == value@),
    {
        if str_is_blank(value) || value.len() > 128 {
            return Err(TimelineError::InvalidId(value.to_owned()));
        }
        Ok(OperationId(value.to_owned()))
    }

    pub fn as_str(&self) -> (s: &str)
        ensures
            s@ == self@,
    {
        self.0.as_str()
    }
}

impl Clone for OperationId {
    fn clone(&self) -> (copy: Self)
        ensures
            copy == *self,
    {
        OperationId(self.0.clone())
    }
}

impl Default for OperationId {
    fn default() -> (id: Self)
        ensures
            is_uuid_text(id@),
    {
        OperationId::new()
    }
}

#[derive(Debug)]
pub struct Clip {
    pub id: ClipId,
    pub source_id: String,
    pub label: String,
    pub duration_ticks: u64,
}

impl Clone for Clip {
    fn clone(&self) -> (copy: Self)
        ensures
            copy == *self,
    {
        Clip {
            id: self.id.clone(),
            source_id: self.source_id.clone(),
            label: self.label.clone(),
            duration_ticks: self.duration_ticks,
        }
    }
}

#[derive(Debug)]
pub enum Operation {
    Trim { id: OperationId, clip_id: ClipId, start_tick: u64, end_tick: u64 },
    /// Effect parameters carry each value as the bits of its IEEE-754 double.
    Effect { id: OperationId, clip_id: ClipId, effect: String, parameters: Vec<(String, u64)> },
}

/// An operation with its parameter list read as a sequence.
pub enum OperationModel {
    Trim { id: OperationId, clip_id: ClipId, start_tick: u64, end_tick: u64 },
    Effect { id: OperationId, clip_id: ClipId, effect: String, parameters: Seq<(String, u64)> },
}

impl OperationModel {
    pub open spec fn op_id(self) -> OperationId {
        match self {
            OperationModel::Trim { id, .. } => id,
            OperationModel::Effect { id, .. } => id,
        }
    }

    pub open spec fn target(self) -> ClipId {
        match self {
            OperationModel::Trim { clip_id, .. } => clip_id,
            OperationModel::Effect { clip_id, .. } => clip_id,
        }
    }

    /// A trim must end after it starts.
    pub open spec fn is_valid(self) -> bool {
        match self {
            OperationModel::Trim { start_tick, end_tick, .. } => end_tick > start_tick,
            OperationModel::Effect { .. } => true,
        }
    }
}

impl View for Operation {
    type V = OperationModel;

    open spec fn view(&self) -> OperationModel {
        match self {
            Operation::Trim { id, clip_id, start_tick, end_tick } => OperationModel::Trim {
                id: *id,
                clip_id: *clip_id,
                start_tick: *start_tick,
                end_tick: *end_tick,
            },
            Operation::Effect { id, clip_id, effect, parameters } => OperationModel::Effect {
                id: *id,
                clip_id: *clip_id,
                effect: *effect,
                parameters: parameters@,
            },
        }
    }
}

impl Operation {
    pub fn id(&self) -> (id: &OperationId)
        ensures
            *id == self@.op_id(),
    {
        match self {
            Operation::Trim { id, .. } => id,
            Operation::Effect { id, .. } => id,
        }
    }

    pub fn clip_id(&self) -> (clip_id: &ClipId)
        ensures
            *clip_id == self@.target(),
    {
        match self {
            Operation::Trim { clip_id, .. } => clip_id,
            Operation::Effect { clip_id, .. } => clip_id,
        }
    }
}

impl Keyed for Operation {
    open spec fn key(&self) -> Seq<char> {
        self@.op_id()@
    }

    fn key_str(&self) -> (k: &str) {
        self.id().as_str()
    }
}

impl Clone for Operation {
    fn clone(&self) -> (copy: Self)
        ensures
            copy@ == self@,
    {
        match self {
            Operation::Trim { id, clip_id, start_tick, end_tick } => Operation::Trim {
                id: id.clone(),
                clip_id: clip_id.clone(),
                start_tick: *start_tick,
                end_tick: *end_tick,
            },
            Operation::Effect { id, clip_id, effect, parameters } => {
                let mut copied: Vec<(String, u64)> = Vec::new();
                let mut i: usize = 0;
                while i < parameters.len()
                    invariant
                        0 <= i <= parameters@.len(),
                        copied@ == parameters@.subrange(0, i as int),
                    decreases parameters.len() - i,
                {
                    copied.push((parameters[i].0.clone(), parameters[i].1));
                    assert(copied@ =~= parameters@.subrange(0, i + 1));
                    i = i + 1;
                }
                assert(copied@ =~= parameters@);
                Operation::Effect { id: id.clone(), clip_id: clip_id.clone(), effect: effect.clone(), parameters: copied }
            },
        }
    }
}

#[derive(Debug)]
pub enum TimelineError {
    InvalidId(String),
    InvalidTimeBase,
    InvalidIndex(usize),
    InvalidTrim,
    DuplicateClip(ClipId),
    MissingClip(ClipId),
    DuplicateOperation(OperationId),
    MissingOperation(OperationId),
    OperationKeyMismatch(OperationId),
    UnsupportedSchema(u32),
    CommandPrecondition,
}

#[verifier::ext_equal]
pub struct TimelineModel {
    pub schema: u32,
    pub time_base: u32,
    pub clips: Seq<Clip>,
    pub operations: Seq<OperationModel>,
}

/// Clip `k` repeats the id of an earlier clip.
pub open spec fn clip_repeats(clips: Seq<Clip>, k: int) -> bool {
    exists|j: int| 0 <= j < k && #[trigger] clips[j].id@ == clips[k].id@
}

pub open spec fn clips_unique(clips: Seq<Clip>) -> bool {
    forall|k: int| 0 <= k < clips.len() ==> !#[trigger] clip_repeats(clips, k)
}

pub open spec fn first_clip_repeat(clips: Seq<Clip>, k: int) -> bool {
    &&& 0 <= k < clips.len()
    &&& clip_repeats(clips, k)
    &&& forall|j: int| 0 <= j < k ==> !#[trigger] clip_repeats(clips, j)
}

pub open spec fn has_clip(clips: Seq<Clip>, id: Seq<char>) -> bool {
    exists|i: int| 0 <= i < clips.len() && #[trigger] clips[i].id@ == id
}

/// The first position of the clip named `id`.
pub open spec fn first_position(clips: Seq<Clip>, id: Seq<char>) -> int {
    choose|i: int| 0 <= i < clips.len() && clips[i].id@ == id && forall|j: int| 0 <= j < i ==> #[trigger] clips[j].id@ != id
}

pub open spec fn operation_error(clips: Seq<Clip>, op: OperationModel) -> Option<TimelineError> {
    if !has_clip(clips, op.target()@) {
        Some(TimelineError::MissingClip(op.target()))
    } else if !op.is_valid() {
        Some(TimelineError::InvalidTrim)
    } else {
        None
    }
}

pub open spec fn operations_error_from(clips: Seq<Clip>, ops: Seq<OperationModel>, i: int) -> Option<TimelineError>
    decreases ops.len() - i,
{
    if i < 0 || i >= ops.len() {
        None
    } else if operation_error(clips, ops[i]) is Some {
        operation_error(clips, ops[i])
    } else {
        operations_error_from(clips, ops, i + 1)
    }
}

/// The first rule, in validation order, that a timeline breaks.
pub open spec fn timeline_error(m: TimelineModel) -> Option<TimelineError> {
    if m.schema != TIMELINE_SCHEMA_VERSION {
        Some(TimelineError::UnsupportedSchema(m.schema))
    } else if m.time_base == 0 {
        Some(TimelineError::InvalidTimeBase)
    } else if !clips_unique(m.clips) {
        let k = choose|k: int| first_clip_repeat(m.clips, k);
        Some(TimelineError::DuplicateClip(m.clips[k].id))
    } else {
        operations_error_from(m.clips, m.operations, 0)
    }
}

pub open spec fn validated(m: TimelineModel) -> Result<TimelineModel, TimelineError> {
    match timeline_error(m) {
        Some(e) => Err(e),
        None => Ok(m),
    }
}

pub open spec fn with_clips(m: TimelineModel, clips: Seq<Clip>) -> TimelineModel {
    TimelineModel { schema: m.schema, time_base: m.time_base, clips, operations: m.operations }
}

/// `clip` placed at `index`, then validated.
pub open spec fn inserted(m: TimelineModel, index: usize, clip: Clip) -> Result<TimelineModel, TimelineError> {
    if index > m.clips.len() {
        Err(TimelineError::InvalidIndex(index))
    } else if has_clip(m.clips, clip.id@) {
        Err(TimelineError::DuplicateClip(clip.id))
    } else {
        validated(with_clips(m, m.clips.insert(index as int, clip)))
    }
}

/// The clip named `clip_id` taken out and put back at `to`, then validated.
pub open spec fn reordered(m: TimelineModel, clip_id: ClipId, to: usize) -> Result<TimelineModel, TimelineError> {
    if to >= m.clips.len() {
        Err(TimelineError::InvalidIndex(to))
    } else if !has_clip(m.clips, clip_id@) {
        Err(TimelineError::MissingClip(clip_id))
    } else {
        let from = first_position(m.clips, clip_id@);
        validated(with_clips(m, m.clips.remove(from).insert(to as int, m.clips[from])))
    }
}

pub open spec fn has_operation(ops: Seq<OperationModel>, id: Seq<char>) -> bool {
    exists|i: int| 0 <= i < ops.len() && #[trigger] ops[i].op_id()@ == id
}

pub open spec fn op_keys_sorted(ops: Seq<OperationModel>) -> bool {
    forall|i: int, j: int| 0 <= i < j < ops.len() ==> seq_lt(#[trigger] ops[i].op_id()@, #[trigger] ops[j].op_id()@)
}

/// The operation added in id order; it needs its clip, a new id and, for a
/// trim, an end after its start.
pub open spec fn added(m: TimelineModel, op: OperationModel) -> Result<TimelineModel, TimelineError> {
    if !has_clip(m.clips, op.target()@) {
        Err(TimelineError::MissingClip(op.target()))
    } else if has_operation(m.operations, op.op_id()@) {
        Err(TimelineError::DuplicateOperation(op.op_id()))
    } else if !op.is_valid() {
        Err(TimelineError::InvalidTrim)
    } else {
        let p = choose|p: int|
            0 <= p <= m.operations.len() && op_keys_sorted(m.operations.insert(p, op));
        Ok(TimelineModel { schema: m.schema, time_base: m.time_base, clips: m.clips, operations: m.operations.insert(p, op) })
    }
}

pub open spec fn removed(m: TimelineModel, id: OperationId) -> Result<TimelineModel, TimelineError> {
    if !has_operation(m.operations, id@) {
        Err(TimelineError::MissingOperation(id))
    } else {
        let i = choose|i: int| 0 <= i < m.operations.len() && #[trigger] m.operations[i].op_id()@ == id@;
        Ok(TimelineModel { schema: m.schema, time_base: m.time_base, clips: m.clips, operations: m.operations.remove(i) })
    }
}

pub struct Timeline {
    schema_version: u32,
    time_base: u32,
    clips: Vec<Clip>,
    operations: Vec<Operation>,
}

pub open spec fn op_models(ops: Seq<Operation>) -> Seq<OperationModel> {
    ops.map_values(|o: Operation| o@)
}

impl View for Timeline {
    type V = TimelineModel;

    closed spec fn view(&self) -> TimelineModel {
        TimelineModel {
            schema: self.schema_version,
            time_base: self.time_base,
            clips: self.clips@,
            operations: op_models(self.operations@),
        }
    }
}

fn copy_operations(ops: &Vec<Operation>) -> (copy: Vec<Operation>)
    ensures
        op_models(copy@) == op_models(ops@),
        forall|i: int| 0 <= i < ops@.len() ==> #[trigger] copy@[i].key() == ops@[i].key(),
        copy@.len() == ops@.len(),
{
    let mut copy: Vec<Operation> = Vec::new();
    let mut i: usize = 0;
    while i < ops.len()
        invariant
            0 <= i <= ops@.len(),
            copy@.len() == i,
            forall|k: int| 0 <= k < i ==> #[trigger] copy@[k]@ == ops@[k]@,
        decreases ops.len() - i,
    {
        copy.push(ops[i].clone());
        i = i + 1;
    }
    assert(op_models(copy@) =~= op_models(ops@));
    copy
}

fn copy_clips(clips: &Vec<Clip>) -> (copy: Vec<Clip>)
    ensures
        copy@ == clips@,
{
    let mut copy: Vec<Clip> = Vec::new();
    let mut i: usize = 0;
    while i < clips.len()
        invariant
            0 <= i <= clips@.len(),
            copy@ == clips@.subrange(0, i as int),
        decreases clips.len() - i,
    {
        copy.push(clips[i].clone());
        assert(copy@ =~= clips@.subrange(0, i + 1));
        i = i + 1;
    }
    assert(copy@ =~= clips@);
    copy
}

fn same_clip_id(a: &ClipId, b: &ClipId) -> (same: bool)
    ensures
        same == (a@ == b@),
{
    str_equal(a.as_str(), b.as_str())
}

fn clip_position(clips: &Vec<Clip>, id: &ClipId) -> (found: Option<usize>)
    ensures
        found matches Some(i) ==> i < clips@.len() && clips@[i as int].id@ == id@ && forall|j: int|
            0 <= j < i ==> #[trigger] clips@[j].id@ != id@,
        found is None ==> !has_clip(clips@, id@),
{
    let mut i: usize = 0;
    while i < clips.len()
        invariant
            0 <= i <= clips@.len(),
            forall|j: int| 0 <= j < i ==> #[trigger] clips@[j].id@ != id@,
        decreases clips.len() - i,
    {
        if same_clip_id(&clips[i].id, id) {
            return Some(i);
        }
        i = i + 1;
    }
    None
}

proof fn lemma_first_position(clips: Seq<Clip>, id: Seq<char>, i: int)
    requires
        0 <= i < clips.len(),
        clips[i].id@ == id,
        forall|j: int| 0 <= j < i ==> #[trigger] clips[j].id@ != id,
    ensures
        first_position(clips, id) == i,
{
    let f = first_position(clips, id);
    if f != i {
        if f < i {
            assert(clips[f].id@ != id);
        } else {
            assert(clips[i].id@ != id);
        }
    }
}

proof fn lemma_first_clip_repeat_unique(clips: Seq<Clip>, a: int, b: int)
    requires
        first_clip_repeat(clips, a),
        first_clip_repeat(clips, b),
    ensures
        a == b,
{
    if a < b {
        assert(!clip_repeats(clips, a));
    } else if b < a {
        assert(!clip_repeats(clips, b));
    }
}

impl Timeline {
    /// The clips in play order.
    pub fn clips(&self) -> (clips: &[Clip])
        ensures
            clips@ == self@.clips,
    {
        self.clips.as_slice()
    }

    /// The operations in id order.
    pub fn operations(&self) -> (operations: &[Operation])
        ensures
            op_models(operations@) == self@.operations,
    {
        self.operations.as_slice()
    }
}

impl Timeline {
    /// Operations are kept in id order, each id once.
    pub closed spec fn well_formed(&self) -> bool {
        keys_sorted(self.operations@)
    }

    proof fn lemma_model(&self)
        requires
            self.well_formed(),
        ensures
            op_keys_sorted(self@.operations),
            forall|i: int| 0 <= i < self.operations@.len() ==> #[trigger] self.operations@[i].key() == self@.operations[i].op_id()@,
            self@.operations.len() == self.operations@.len(),
    {
        assert forall|i: int, j: int| 0 <= i < j < self@.operations.len() implies seq_lt(
            #[trigger] self@.operations[i].op_id()@,
            #[trigger] self@.operations[j].op_id()@,
        ) by {
            assert(self@.operations[i] == self.operations@[i]@);
            assert(self@.operations[j] == self.operations@[j]@);
            assert(seq_lt(self.operations@[i].key(), self.operations@[j].key()));
        }
    }

    fn duplicate(&self) -> (copy: Timeline)
        requires
            self.well_formed(),
        ensures
            copy.well_formed(),
            copy@ == self@,
    {
        let operations = copy_operations(&self.operations);
        let copy = Timeline {
            schema_version: self.schema_version,
            time_base: self.time_base,
            clips: copy_clips(&self.clips),
            operations,
        };
        assert(keys_sorted(copy.operations@)) by {
            assert forall|i: int, j: int| 0 <= i < j < copy.operations@.len() implies seq_lt(
                #[trigger] copy.operations@[i].key(),
                #[trigger] copy.operations@[j].key(),
            ) by {
                assert(copy.operations@[i].key() == self.operations@[i].key());
                assert(copy.operations@[j].key() == self.operations@[j].key());
            }
        }
        copy
    }

    pub fn new(time_base: u32) -> (result: Result<Self, TimelineError>)
        ensures
            time_base == 0 ==> (result matches Err(e) && e matches TimelineError::InvalidTimeBase),
            time_base != 0 ==> (result matches Ok(t) && t.well_formed() && t@ == (TimelineModel {
                schema: TIMELINE_SCHEMA_VERSION,
                time_base,
                clips: Seq::empty(),
                operations: Seq::empty(),
            })),
    {
        if time_base == 0 {
            return Err(TimelineError::InvalidTimeBase);
        }
        let t = Timeline { schema_version: TIMELINE_SCHEMA_VERSION, time_base, clips: Vec::new(), operations: Vec::new() };
        assert(t@ =~= TimelineModel {
            schema: TIMELINE_SCHEMA_VERSION,
            time_base,
            clips: Seq::empty(),
            operations: Seq::empty(),
        });
        Ok(t)
    }

    pub fn validate(&self) -> (result: Result<(), TimelineError>)
        requires
            self.well_formed(),
        ensures
            result matches Err(e) ==> timeline_error(self@) == Some(e),
            result is Ok <==> timeline_error(self@) is None,
    {
        if self.schema_version != TIMELINE_SCHEMA_VERSION {
            return Err(TimelineError::UnsupportedSchema(self.schema_version));
        }
        if self.time_base == 0 {
            return Err(TimelineError::InvalidTimeBase);
        }
        let ghost clips = self.clips@;
        let mut b: usize = 0;
        while b < self.clips.len()
            invariant
                0 <= b <= clips.len(),
                self.schema_version == TIMELINE_SCHEMA_VERSION,
                self.time_base != 0,
                clips == self.clips@,
                forall|k: int| 0 <= k < b ==> !#[trigger] clip_repeats(clips, k),
            decreases self.clips.len() - b,
        {
            let mut a: usize = 0;
            while a < b
                invariant
                    0 <= a <= b,
                    b < clips.len(),
                    clips == self.clips@,
                    self.schema_version == TIMELINE_SCHEMA_VERSION,
                    self.time_base != 0,
                    forall|k: int| 0 <= k < b ==> !#[trigger] clip_repeats(clips, k),
                    forall|j: int| 0 <= j < a ==> clips[j].id@ != clips[b as int].id@,
                decreases b - a,
            {
                if same_clip_id(&self.clips[a].id, &self.clips[b].id) {
                    proof {
                        assert(clip_repeats(clips, b as int));
                        assert(first_clip_repeat(clips, b as int));
                        let k = choose|k: int| first_clip_repeat(clips, k);
                        lemma_first_clip_repeat_unique(clips, k, b as int);
                    }
                    return Err(TimelineError::DuplicateClip(self.clips[b].id.clone()));
                }
                a = a + 1;
            }
            b = b + 1;
        }
        let ghost ops = self@.operations;
        let mut i: usize = 0;
        while i < self.operations.len()
            invariant
                0 <= i <= self.operations@.len(),
                self.schema_version == TIMELINE_SCHEMA_VERSION,
                self.time_base != 0,
                clips == self.clips@,
                ops == self@.operations,
                clips_unique(clips),
                ops.len() == self.operations@.len(),
                operations_error_from(clips, ops, 0) == operations_error_from(clips, ops, i as int),
            decreases self.operations.len() - i,
        {
            let op = &self.operations[i];
            assert(ops[i as int] == op@);
            let target = op.clip_id();
            match clip_position(&self.clips, target) {
                None => {
                    return Err(TimelineError::MissingClip(target.clone()));
                },
                Some(_) => {},
            }
            match op {
                Operation::Trim { start_tick, end_tick, .. } => {
                    if *end_tick <= *start_tick {
                        return Err(TimelineError::InvalidTrim);
                    }
                },
                Operation::Effect { .. } => {},
            }
            i = i + 1;
        }
        Ok(())
    }

    pub fn insert_clip(&self, index: usize, clip: Clip) -> (result: Result<Self, TimelineError>)
        requires
            self.well_formed(),
        ensures
            result matches Ok(t) ==> t.well_formed() && inserted(self@, index, clip) == Ok::<TimelineModel, TimelineError>(t@),
            result matches Err(e) ==> inserted(self@, index, clip) == Err::<TimelineModel, TimelineError>(e),
    {
        if index > self.clips.len() {
            return Err(TimelineError::InvalidIndex(index));
        }
        match clip_position(&self.clips, &clip.id) {
            Some(_) => {
                return Err(TimelineError::DuplicateClip(clip.id));
            },
            None => {},
        }
        let mut next = self.duplicate();
        next.clips.insert(index, clip);
        assert(next@ =~= with_clips(self@, self@.clips.insert(index as int, clip)));
        match next.validate() {
            Ok(()) => Ok(next),
            Err(e) => Err(e),
        }
    }

    pub fn reorder_clip(&self, clip_id: &ClipId, to: usize) -> (result: Result<Self, TimelineError>)
        requires
            self.well_formed(),
        ensures
            result matches Ok(t) ==> t.well_formed() && reordered(self@, *clip_id, to) == Ok::<TimelineModel, TimelineError>(t@),
            result matches Err(e) ==> reordered(self@, *clip_id, to) == Err::<TimelineModel, TimelineError>(e),
    {
        if to >= self.clips.len() {
            return Err(TimelineError::InvalidIndex(to));
        }
        let from = match clip_position(&self.clips, clip_id) {
            Some(i) => i,
            None => {
                return Err(TimelineError::MissingClip(clip_id.clone()));
            },
        };
        proof {
            lemma_first_position(self.clips@, clip_id@, from as int);
        }
        let mut next = self.duplicate();
        let clip = next.clips.remove(from);
        next.clips.insert(to, clip);
        assert(next@ =~= with_clips(self@, self@.clips.remove(from as int).insert(to as int, self@.clips[from as int])));
        match next.validate() {
            Ok(()) => Ok(next),
            Err(e) => Err(e),
        }
    }

    pub fn add_operation(&self, operation: Operation) -> (result: Result<Self, TimelineError>)
        requires
            self.well_formed(),
        ensures
            result matches Ok(t) ==> t.well_formed() && added(self@, operation@) == Ok::<TimelineModel, TimelineError>(t@),
            result matches Err(e) ==> added(self@, operation@) == Err::<TimelineModel, TimelineError>(e),
    {
        proof {
            self.lemma_model();
            lemma_to_map(self.operations@);
        }
        match clip_position(&self.clips, operation.clip_id()) {
            None => {
                return Err(TimelineError::MissingClip(operation.clip_id().clone()));
            },
            Some(_) => {},
        }
        match find_key(&self.operations, operation.id().as_str()) {
            Some(i) => {
                assert(self@.operations[i as int].op_id()@ == operation@.op_id()@);
                return Err(TimelineError::DuplicateOperation(operation.id().clone()));
            },
            None => {},
        }
        assert(!has_operation(self@.operations, operation@.op_id()@)) by {
            if has_operation(self@.operations, operation@.op_id()@) {
                let i = choose|i: int| 0 <= i < self@.operations.len() && #[trigger] self@.operations[i].op_id()@ == operation@.op_id()@;
                assert(self.operations@[i].key() == operation.key());
            }
        }
        let valid = match &operation {
            Operation::Trim { start_tick, end_tick, .. } => *end_tick > *start_tick,
            Operation::Effect { .. } => true,
        };
        if !valid {
            return Err(TimelineError::InvalidTrim);
        }
        let mut next = self.duplicate();
        proof {
            next.lemma_model();
            assert(!has_key(next.operations@, operation.key())) by {
                if has_key(next.operations@, operation.key()) {
                    let i = choose|i: int| 0 <= i < next.operations@.len() && #[trigger] next.operations@[i].key() == operation.key();
                    assert(self@.operations[i].op_id()@ == operation@.op_id()@);
                }
            }
        }
        let position = insertion_point(&next.operations, operation.id().as_str());
        proof {
            lemma_insert_sorted(next.operations@, position as int, operation);
        }
        let ghost op = operation@;
        next.operations.insert(position, operation);
        proof {
            next.lemma_model();
            assert(next@.operations =~= self@.operations.insert(position as int, op));
            let p = choose|p: int| 0 <= p <= self@.operations.len() && op_keys_sorted(self@.operations.insert(p, op));
            lemma_sorted_insert_unique(self@.operations, op, p, position as int);
        }
        Ok(next)
    }

    pub fn remove_operation(&self, id: &OperationId) -> (result: Result<Self, TimelineError>)
        requires
            self.well_formed(),
        ensures
            result matches Ok(t) ==> t.well_formed() && removed(self@, *id) == Ok::<TimelineModel, TimelineError>(t@),
            result matches Err(e) ==> removed(self@, *id) == Err::<TimelineModel, TimelineError>(e),
    {
        proof {
            self.lemma_model();
        }
        let position = match find_key(&self.operations, id.as_str()) {
            Some(i) => i,
            None => {
                assert(!has_operation(self@.operations, id@)) by {
                    if has_operation(self@.operations, id@) {
                        let i = choose|i: int| 0 <= i < self@.operations.len() && #[trigger] self@.operations[i].op_id()@ == id@;
                        assert(self.operations@[i].key() == id@);
                    }
                }
                return Err(TimelineError::MissingOperation(id.clone()));
            },
        };
        let mut next = self.duplicate();
        next.operations.remove(position);
        proof {
            assert(next@.operations =~= self@.operations.remove(position as int));
            let i = choose|i: int| 0 <= i < self@.operations.len() && #[trigger] self@.operations[i].op_id()@ == id@;
            if i != position {
                crate::keyed::lemma_sorted_unique(self.operations@, i, position as int);
            }
            assert(keys_sorted(next.operations@)) by {
                assert forall|a: int, b: int| 0 <= a < b < next.operations@.len() implies seq_lt(
                    #[trigger] next.operations@[a].key(),
                    #[trigger] next.operations@[b].key(),
                ) by {
                    let a0 = if a < position { a } else { a + 1 };
                    let b0 = if b < position { b } else { b + 1 };
                    assert(next.operations@[a].key() == self.operations@[a0].key());
                    assert(next.operations@[b].key() == self.operations@[b0].key());
                }
            }
        }
        Ok(next)
    }
}

/// Inserting into sorted keys keeps them sorted at one position only.
proof fn lemma_sorted_insert_unique(ops: Seq<OperationModel>, op: OperationModel, p: int, q: int)
    requires
        0 <= p <= ops.len(),
        0 <= q <= ops.len(),
        op_keys_sorted(ops.insert(p, op)),
        op_keys_sorted(ops.insert(q, op)),
    ensures
        ops.insert(p, op) == ops.insert(q, op),
    decreases if p < q { 1int } else { 2int },
{
    if p < q {
        let a = ops.insert(p, op);
        let b = ops.insert(q, op);
        assert(a[p] == op);
        assert(a[q] == ops[q - 1]);
        assert(b[q - 1] == ops[q - 1]);
        assert(b[q] == op);
        assert(seq_lt(a[p].op_id()@, a[q].op_id()@));
        assert(seq_lt(b[q - 1].op_id()@, b[q].op_id()@));
        crate::text::lemma_seq_lt_transitive(op.op_id()@, ops[q - 1].op_id()@, op.op_id()@);
        crate::text::lemma_seq_lt_irreflexive(op.op_id()@);
    } else if q < p {
        lemma_sorted_insert_unique(ops, op, q, p);
    }
}

pub struct MoveClipCommand {
    pub clip_id: ClipId,
    pub from: usize,
    pub to: usize,
}

/// The clip at `from` must be the named one; it then moves to `to`.
pub open spec fn moved(command: MoveClipCommand, m: TimelineModel) -> Result<TimelineModel, TimelineError> {
    if !(command.from < m.clips.len() && m.clips[command.from as int].id@ == command.clip_id@) {
        Err(TimelineError::CommandPrecondition)
    } else {
        reordered(m, command.clip_id, command.to)
    }
}

pub open spec fn inverse(command: MoveClipCommand) -> MoveClipCommand {
    MoveClipCommand { clip_id: command.clip_id, from: command.to, to: command.from }
}

impl MoveClipCommand {
    pub fn apply(&self, timeline: &Timeline) -> (result: Result<Timeline, TimelineError>)
        requires
            timeline.well_formed(),
        ensures
            result matches Ok(t) ==> t.well_formed() && moved(*self, timeline@) == Ok::<TimelineModel, TimelineError>(t@),
            result matches Err(e) ==> moved(*self, timeline@) == Err::<TimelineModel, TimelineError>(e),
    {
        let matches = self.from < timeline.clips.len() && same_clip_id(&timeline.clips[self.from].id, &self.clip_id);
        if !matches {
            return Err(TimelineError::CommandPrecondition);
        }
        timeline.reorder_clip(&self.clip_id, self.to)
    }

    /// The command that moves the clip back.
    pub fn invert(&self) -> (inverted: Self)
        ensures
            inverted == inverse(*self),
    {
        MoveClipCommand { clip_id: self.clip_id.clone(), from: self.to, to: self.from }
    }
}

/// Where element `i` of `s.remove(a).insert(b, s[a])` sits in `s`.
pub open spec fn source_index(a: int, b: int, i: int) -> int {
    if i == b {
        a
    } else {
        let j = if i < b { i } else { i - 1 };
        if j < a { j } else { j + 1 }
    }
}

/// Some position below `n` has source `k`.
pub open spec fn has_preimage(a: int, b: int, n: int, k: int) -> bool {
    exists|i: int| 0 <= i < n && #[trigger] source_index(a, b, i) == k
}

proof fn lemma_move_permutes(s: Seq<Clip>, a: int, b: int)
    requires
        0 <= a < s.len(),
        0 <= b < s.len(),
    ensures
        ({
            let t = s.remove(a).insert(b, s[a]);
            &&& t.len() == s.len()
            &&& forall|i: int| 0 <= i < t.len() ==> 0 <= #[trigger] source_index(a, b, i) < s.len() && t[i] == s[source_index(a, b, i)]
            &&& forall|i: int, j: int|
                #![trigger source_index(a, b, i), source_index(a, b, j)]
                0 <= i < t.len() && 0 <= j < t.len() && i != j ==> source_index(a, b, i) != source_index(a, b, j)
            &&& forall|k: int| 0 <= k < s.len() ==> #[trigger] has_preimage(a, b, t.len() as int, k)
        }),
{
    let t = s.remove(a).insert(b, s[a]);
    assert forall|k: int| 0 <= k < s.len() implies #[trigger] has_preimage(a, b, t.len() as int, k) by {
        if k == a {
            assert(source_index(a, b, b) == k);
        } else {
            let j = if k < a { k } else { k - 1 };
            let i = if j < b { j } else { j + 1 };
            assert(source_index(a, b, i) == k);
        }
    }
}

/// Moving one clip keeps ids unique and keeps the same set of ids.
proof fn lemma_move_keeps_clips(s: Seq<Clip>, a: int, b: int)
    requires
        0 <= a < s.len(),
        0 <= b < s.len(),
    ensures
        ({
            let t = s.remove(a).insert(b, s[a]);
            &&& clips_unique(s) <==> clips_unique(t)
            &&& forall|id: Seq<char>| #[trigger] has_clip(s, id) <==> has_clip(t, id)
        }),
{
    let t = s.remove(a).insert(b, s[a]);
    lemma_move_permutes(s, a, b);
    assert forall|id: Seq<char>| #[trigger] has_clip(s, id) <==> has_clip(t, id) by {
        if has_clip(s, id) {
            let k = choose|k: int| 0 <= k < s.len() && #[trigger] s[k].id@ == id;
            assert(has_preimage(a, b, t.len() as int, k));
            let i = choose|i: int| 0 <= i < t.len() && #[trigger] source_index(a, b, i) == k;
            assert(t[i].id@ == id);
        }
        if has_clip(t, id) {
            let i = choose|i: int| 0 <= i < t.len() && #[trigger] t[i].id@ == id;
            assert(s[source_index(a, b, i)].id@ == id);
        }
    }
    if clips_unique(s) {
        assert forall|k: int| 0 <= k < t.len() implies !#[trigger] clip_repeats(t, k) by {
            if clip_repeats(t, k) {
                let j = choose|j: int| 0 <= j < k && #[trigger] t[j].id@ == t[k].id@;
                let x = source_index(a, b, j);
                let y = source_index(a, b, k);
                assert(x != y);
                if x < y {
                    assert(clip_repeats(s, y));
                } else {
                    assert(clip_repeats(s, x));
                }
            }
        }
    }
    if clips_unique(t) {
        assert forall|k: int| 0 <= k < s.len() implies !#[trigger] clip_repeats(s, k) by {
            if clip_repeats(s, k) {
                let j = choose|j: int| 0 <= j < k && #[trigger] s[j].id@ == s[k].id@;
                assert(has_preimage(a, b, t.len() as int, j));
                assert(has_preimage(a, b, t.len() as int, k));
                let x = choose|i: int| 0 <= i < t.len() && #[trigger] source_index(a, b, i) == j;
                let y = choose|i: int| 0 <= i < t.len() && #[trigger] source_index(a, b, i) == k;
                assert(x != y);
                if x < y {
                    assert(clip_repeats(t, y));
                } else {
                    assert(clip_repeats(t, x));
                }
            }
        }
    }
}

proof fn lemma_operations_error_same_clips(c1: Seq<Clip>, c2: Seq<Clip>, ops: Seq<OperationModel>, i: int)
    requires
        forall|id: Seq<char>| #[trigger] has_clip(c1, id) <==> has_clip(c2, id),
    ensures
        operations_error_from(c1, ops, i) == operations_error_from(c2, ops, i),
    decreases ops.len() - i,
{
    if 0 <= i < ops.len() {
        assert(has_clip(c1, ops[i].target()@) == has_clip(c2, ops[i].target()@));
        lemma_operations_error_same_clips(c1, c2, ops, i + 1);
    }
}

/// Undo: when a move succeeds, its inverse applied to the result succeeds and
/// gives back the timeline it started from.
pub proof fn law_move_then_invert_restores(command: MoveClipCommand, m: TimelineModel, m2: TimelineModel)
    requires
        moved(command, m) == Ok::<TimelineModel, TimelineError>(m2),
    ensures
        moved(inverse(command), m2) == Ok::<TimelineModel, TimelineError>(m),
{
    let c = m.clips;
    let id = command.clip_id@;
    let f = first_position(c, id);
    let to = command.to as int;
    let from = command.from as int;
    // The named clip exists, so the first position is a real position.
    assert(has_clip(c, id)) by {
        assert(c[from].id@ == id);
    }
    assert(0 <= f < c.len() && c[f].id@ == id && forall|j: int| 0 <= j < f ==> #[trigger] c[j].id@ != id) by {
        let w = choose|i: int| 0 <= i < c.len() && #[trigger] c[i].id@ == id;
        let g = first_index_with(c, id, w);
        assert(c[g].id@ == id && forall|j: int| 0 <= j < g ==> #[trigger] c[j].id@ != id);
    }
    let c2 = c.remove(f).insert(to, c[f]);
    assert(timeline_error(with_clips(m, c2)) is None);
    assert(m2 == with_clips(m, c2));
    lemma_move_keeps_clips(c, f, to);
    assert(clips_unique(c2));
    assert(clips_unique(c));
    // The move took the clip at `from`: ids are unique and it carries the id.
    assert(f == from) by {
        if f != from {
            assert(f < from);
            assert(clip_repeats(c, from)) by {
                assert(c[f].id@ == c[from].id@);
            }
        }
    }
    // The inverse finds the clip where the move put it.
    assert(c2[to].id@ == id);
    assert(c2.len() == c.len());
    assert(forall|j: int| 0 <= j < to ==> #[trigger] c2[j].id@ != id) by {
        assert forall|j: int| 0 <= j < to implies #[trigger] c2[j].id@ != id by {
            if c2[j].id@ == id {
                assert(clip_repeats(c2, to)) by {
                    assert(c2[j].id@ == c2[to].id@);
                }
            }
        }
    }
    lemma_first_position(c2, id, to);
    assert(has_clip(c2, id));
    let back = c2.remove(to).insert(from, c2[to]);
    assert(back =~= c);
    lemma_operations_error_same_clips(c, c2, m.operations, 0);
    assert(with_clips(m2, back) =~= m);
}

/// The first position of `id` in `clips`, given one position `w` that holds it.
proof fn first_index_with(clips: Seq<Clip>, id: Seq<char>, w: int) -> (g: int)
    requires
        0 <= w < clips.len(),
        clips[w].id@ == id,
    ensures
        0 <= g <= w,
        clips[g].id@ == id,
        forall|j: int| 0 <= j < g ==> #[trigger] clips[j].id@ != id,
    decreases w,
{
    if exists|j: int| 0 <= j < w && #[trigger] clips[j].id@ == id {
        let j = choose|j: int| 0 <= j < w && #[trigger] clips[j].id@ == id;
        first_index_with(clips, id, j)
    } else {
        w
    }
}

} // verus!
