//! Stored project documents: migration from older schema versions to the
//! latest one, and the forward-compatibility rule for operations this editor
//! does not know. Unknown optional operations are kept as they are; an
//! unknown required operation stops the migration, since skipping it could
//! change what gets rendered.

use vstd::prelude::*;

use crate::json::{member, member_index, set_member, take_member, Json};
use crate::keyed::{find_key, has_key, insertion_point, keys_sorted, lemma_insert_sorted, lemma_to_map, to_map, Keyed};
use crate::text::str_equal;

verus! {

pub const LATEST_PROJECT_VERSION: u64 = 3;

#[derive(Debug, PartialEq, Eq)]
pub enum ProjectMigrationError {
    InvalidRoot,
    InvalidVersion,
    UnsupportedVersion(u64),
    InvalidOperation(usize),
    UnknownRequiredOperation(String),
}

/// The migrated document, and the types of the unknown optional operations
/// it carries (each once, in order).
#[derive(Debug, PartialEq, Eq)]
pub struct MigrationReport {
    pub document: Json,
    pub preserved_optional_operations: Vec<String>,
}

/// The operation types this editor applies.
pub open spec fn known_operation(t: Seq<char>) -> bool {
    ||| t == "clip.add"@
    ||| t == "clip.move"@
    ||| t == "clip.remove"@
    ||| t == "effect.set"@
    ||| t == "track.add"@
}

/// The `type` text of an operation object, if it has one.
#[verifier::opaque]
pub open spec fn operation_type(op: Json) -> Option<Seq<char>> {
    match op {
        Json::Object(ms) => match member(ms@, "type"@) {
            Some(Json::Text(t)) => Some(t@),
            _ => None,
        },
        _ => None,
    }
}

/// Whether the operation is marked `"optional": true`.
#[verifier::opaque]
pub open spec fn operation_optional(op: Json) -> bool {
    match op {
        Json::Object(ms) => member(ms@, "optional"@) == Some(Json::Bool(true)),
        _ => false,
    }
}

/// An operation the migration refuses: one without a type, or one of an
/// unknown type that is not optional.
pub open spec fn operation_rejected(op: Json) -> bool {
    match operation_type(op) {
        None => true,
        Some(t) => !known_operation(t) && !operation_optional(op),
    }
}

/// No operation before position `n` is refused.
pub open spec fn accepted_before(ops: Seq<Json>, n: int) -> bool {
    forall|j: int| 0 <= j < n ==> !operation_rejected(#[trigger] ops[j])
}

/// An unknown operation type among the first `n` operations.
pub open spec fn unknown_type_before(ops: Seq<Json>, n: int, t: Seq<char>) -> bool {
    exists|j: int| 0 <= j < n && #[trigger] operation_type(ops[j]) == Some(t) && !known_operation(t)
}

fn is_known_operation(t: &str) -> (known: bool)
    ensures
        known == known_operation(t@),
{
    str_equal(t, "clip.add") || str_equal(t, "clip.move") || str_equal(t, "clip.remove") || str_equal(
        t,
        "effect.set",
    ) || str_equal(t, "track.add")
}

/// Adds `name` to a sorted set of names.
fn insert_name(names: &mut Vec<String>, name: &String)
    requires
        keys_sorted(old(names)@),
    ensures
        keys_sorted(final(names)@),
        forall|t: Seq<char>| #[trigger] has_key(final(names)@, t) <==> has_key(old(names)@, t) || t == name@,
{
    let ghost before = names@;
    match find_key(names, name.as_str()) {
        Some(i) => {},
        None => {
            let p = insertion_point(names, name.as_str());
            let copy = name.clone();
            names.insert(p, copy);
            proof {
                assert(names@ == before.insert(p as int, copy));
                lemma_insert_sorted(before, p as int, copy);
                lemma_to_map(before);
                lemma_to_map(names@);
                assert forall|t: Seq<char>| #[trigger] has_key(names@, t) <==> has_key(before, t) || t == name@ by {
                    assert(to_map(names@).contains_key(t) == to_map(before).insert(copy.key(), copy).contains_key(t));
                }
            }
        },
    }
}

/// The `type` of an operation that carries one as text.
fn type_of(op: &Json) -> (found: Option<&String>)
    ensures
        found matches Some(t) ==> operation_type(*op) == Some(t@),
        found is None ==> operation_type(*op) is None,
{
    reveal(operation_type);
    match op {
        Json::Object(ms) => match member_index(ms, "type") {
            Some(i) => match &ms[i].1 {
                Json::Text(t) => Some(t),
                _ => None,
            },
            None => None,
        },
        _ => None,
    }
}

fn is_optional(op: &Json) -> (optional: bool)
    ensures
        optional == operation_optional(*op),
{
    reveal(operation_optional);
    match op {
        Json::Object(ms) => match member_index(ms, "optional") {
            Some(i) => match &ms[i].1 {
                Json::Bool(b) => *b,
                _ => false,
            },
            None => false,
        },
        _ => false,
    }
}

/// Only the first refused operation can be the first refused operation.
proof fn lemma_first_rejected(ops: Seq<Json>, i: int)
    requires
        0 <= i < ops.len(),
        accepted_before(ops, i),
        operation_rejected(ops[i]),
    ensures
        !accepted_before(ops, ops.len() as int),
{
    assert(!operation_rejected(ops[i]) ==> false);
}

/// Checks the `operations` member of a root and collects the unknown
/// optional operation types.
#[verifier::rlimit(30)]
fn validate_operations(root: &Vec<(String, Json)>) -> (result: Result<Vec<String>, ProjectMigrationError>)
    ensures
        match member(root@, "operations"@) {
            None => result matches Ok(names) && names@.len() == 0,
            Some(Json::Array(ops)) => operations_outcome(ops@, result),
            Some(_) => result == Err::<Vec<String>, ProjectMigrationError>(ProjectMigrationError::InvalidOperation(0)),
        },
{
    let index = match member_index(root, "operations") {
        None => {
            return Ok(Vec::new());
        },
        Some(i) => i,
    };
    let ops = match &root[index].1 {
        Json::Array(ops) => ops,
        _ => {
            return Err(ProjectMigrationError::InvalidOperation(0));
        },
    };
    let mut names: Vec<String> = Vec::new();
    let mut i: usize = 0;
    while i < ops.len()
        invariant
            0 <= i <= ops@.len(),
            member(root@, "operations"@) == Some(Json::Array(*ops)),
            accepted_before(ops@, i as int),
            keys_sorted(names@),
            forall|t: Seq<char>| #[trigger] has_key(names@, t) <==> unknown_type_before(ops@, i as int, t),
        decreases ops.len() - i,
    {
        let op = &ops[i];
        let kind = match type_of(op) {
            Some(kind) => kind,
            None => {
                proof {
                    lemma_first_rejected(ops@, i as int);
                    assert(operation_rejected(ops@[i as int]));
                    assert(refusal_is(ops@, ProjectMigrationError::InvalidOperation(i)));
                }
                return Err(ProjectMigrationError::InvalidOperation(i));
            },
        };
        if !is_known_operation(kind.as_str()) {
            if !is_optional(op) {
                let error = ProjectMigrationError::UnknownRequiredOperation(kind.clone());
                proof {
                    lemma_first_rejected(ops@, i as int);
                    assert(operation_rejected(ops@[i as int]));
                    assert(refusal_is(ops@, error));
                }
                return Err(error);
            }
            insert_name(&mut names, kind);
        }
        proof {
            assert forall|t: Seq<char>| #[trigger] has_key(names@, t) <==> unknown_type_before(ops@, i + 1, t) by {
                if unknown_type_before(ops@, i + 1, t) {
                    let j = choose|j: int| 0 <= j < i + 1 && #[trigger] operation_type(ops@[j]) == Some(t) && !known_operation(t);
                    if j < i {
                        assert(unknown_type_before(ops@, i as int, t));
                    }
                }
                if unknown_type_before(ops@, i as int, t) {
                    let j = choose|j: int| 0 <= j < i && #[trigger] operation_type(ops@[j]) == Some(t) && !known_operation(t);
                    assert(unknown_type_before(ops@, i + 1, t));
                }
                if t == kind@ && !known_operation(t) {
                    assert(operation_type(ops@[i as int]) == Some(t));
                }
            }
        }
        i = i + 1;
    }
    Ok(names)
}

/// The error that ends the check of `ops`: the first refused operation
/// gives `InvalidOperation` with its position when it has no type, else
/// `UnknownRequiredOperation` with its type.
pub open spec fn refusal_is(ops: Seq<Json>, error: ProjectMigrationError) -> bool {
    exists|i: int|
        0 <= i < ops.len() && accepted_before(ops, i) && #[trigger] operation_rejected(ops[i]) && match operation_type(ops[i]) {
            None => error == ProjectMigrationError::InvalidOperation(i as usize),
            Some(t) => (error matches ProjectMigrationError::UnknownRequiredOperation(kind) && kind@ == t),
        }
}

/// How checking a list of operations ends: with the error of the first
/// refused one, or with the set of unknown optional types, in order.
pub open spec fn operations_outcome(ops: Seq<Json>, result: Result<Vec<String>, ProjectMigrationError>) -> bool {
    if accepted_before(ops, ops.len() as int) {
        result matches Ok(names) && keys_sorted(names@) && forall|t: Seq<char>|
            #[trigger] has_key(names@, t) <==> unknown_type_before(ops, ops.len() as int, t)
    } else {
        result matches Err(error) && refusal_is(ops, error)
    }
}

/// `[]`
pub open spec fn is_empty_array(v: Json) -> bool {
    match v {
        Json::Array(items) => items@.len() == 0,
        _ => false,
    }
}

/// `{}`
pub open spec fn is_empty_object(v: Json) -> bool {
    match v {
        Json::Object(ms) => ms@.len() == 0,
        _ => false,
    }
}

/// `{"tracks": []}`
pub open spec fn is_empty_timeline(v: Json) -> bool {
    match v {
        Json::Object(ms) => ms@.len() == 1 && ms@[0].0@ == "tracks"@ && is_empty_array(ms@[0].1),
        _ => false,
    }
}

/// `{"tracks": [{"clips": clips}]}`, where `clips` is `[]` when there were
/// none.
pub open spec fn is_single_track_timeline(v: Json, clips: Option<Json>) -> bool {
    match v {
        Json::Object(ms) => ms@.len() == 1 && ms@[0].0@ == "tracks"@ && match ms@[0].1 {
            Json::Array(tracks) => tracks@.len() == 1 && match tracks@[0] {
                Json::Object(track) => track@.len() == 1 && track@[0].0@ == "clips"@ && match clips {
                    Some(c) => track@[0].1 == c,
                    None => is_empty_array(track@[0].1),
                },
                _ => false,
            },
            _ => false,
        },
        _ => false,
    }
}

/// The stored `schemaVersion`, when it is a non-negative integer.
pub open spec fn stored_version(root: Seq<(String, Json)>) -> Option<u64> {
    match member(root, "schemaVersion"@) {
        Some(Json::Unsigned(n)) => Some(n),
        _ => None,
    }
}

/// The stored operations, when they are a list (none when absent).
pub open spec fn stored_operations(root: Seq<(String, Json)>) -> Seq<Json> {
    match member(root, "operations"@) {
        Some(Json::Array(ops)) => ops@,
        _ => Seq::empty(),
    }
}

/// Whether `got` is what the migrated document holds under key `k`, for a
/// stored root at schema `version`: version 1 moves its `clips` into a
/// single-track `timeline`; versions 1 and 2 gain an empty `operations` list
/// when they have none; every version ends at the latest `schemaVersion`
/// with a `metadata` object and a `timeline` (empty ones when missing);
/// everything else is kept as stored.
pub open spec fn migrated_member(root: Seq<(String, Json)>, version: u64, k: Seq<char>, got: Option<Json>) -> bool {
    if k == "schemaVersion"@ {
        got == Some(Json::Unsigned(LATEST_PROJECT_VERSION))
    } else if k == "clips"@ && version == 1 {
        got is None
    } else if k == "timeline"@ && version == 1 {
        got matches Some(t) && is_single_track_timeline(t, member(root, "clips"@))
    } else if k == "timeline"@ && member(root, k) is None {
        got matches Some(t) && is_empty_timeline(t)
    } else if k == "operations"@ && version <= 2 && member(root, k) is None {
        got matches Some(o) && is_empty_array(o)
    } else if k == "metadata"@ && member(root, k) is None {
        got matches Some(m) && is_empty_object(m)
    } else {
        got == member(root, k)
    }
}

/// A successful migration of a stored root at schema `version`.
pub open spec fn migrated(root: Seq<(String, Json)>, version: u64, report: MigrationReport) -> bool {
    &&& report.document matches Json::Object(out)
    &&& keys_sorted(out@)
    &&& forall|k: Seq<char>| migrated_member(root, version, k, #[trigger] member(out@, k))
    &&& keys_sorted(report.preserved_optional_operations@)
    &&& forall|t: Seq<char>|
        #[trigger] has_key(report.preserved_optional_operations@, t) <==> unknown_type_before(
            stored_operations(root),
            stored_operations(root).len() as int,
            t,
        )
}

/// The member names the migration touches are distinct.
proof fn lemma_root_keys_distinct()
    ensures
        "schemaVersion"@ != "clips"@,
        "schemaVersion"@ != "timeline"@,
        "schemaVersion"@ != "operations"@,
        "schemaVersion"@ != "metadata"@,
        "clips"@ != "timeline"@,
        "clips"@ != "operations"@,
        "clips"@ != "metadata"@,
        "timeline"@ != "operations"@,
        "timeline"@ != "metadata"@,
        "operations"@ != "metadata"@,
{
    reveal_strlit("schemaVersion");
    reveal_strlit("clips");
    reveal_strlit("timeline");
    reveal_strlit("operations");
    reveal_strlit("metadata");
    assert("schemaVersion"@[0] == 's' && "clips"@[0] == 'c' && "timeline"@[0] == 't');
    assert("operations"@[0] == 'o' && "metadata"@[0] == 'm');
}

/// Version 1 to 2: the top-level `clips` become the single track of a new
/// `timeline`.
fn upgrade_from_v1(root: &mut Vec<(String, Json)>)
    requires
        keys_sorted(old(root)@),
    ensures
        keys_sorted(final(root)@),
        member(final(root)@, "clips"@) is None,
        member(final(root)@, "timeline"@) matches Some(t) && is_single_track_timeline(t, member(old(root)@, "clips"@)),
        member(final(root)@, "schemaVersion"@) == Some(Json::Unsigned(2)),
        forall|k: Seq<char>|
            k != "clips"@ && k != "timeline"@ && k != "schemaVersion"@ ==> #[trigger] member(final(root)@, k) == member(
                old(root)@,
                k,
            ),
{
    proof {
        lemma_root_keys_distinct();
    }
    let clips = match take_member(root, "clips") {
        Some(clips) => clips,
        None => Json::Array(Vec::new()),
    };
    let track = Json::Object(vec![("clips".to_owned(), clips)]);
    let timeline = Json::Object(vec![("tracks".to_owned(), Json::Array(vec![track]))]);
    set_member(root, "timeline", timeline);
    set_member(root, "schemaVersion", Json::Unsigned(2));
}

/// Versions 1 and 2 to the latest: an `operations` list when there is none,
/// and the latest `schemaVersion`.
fn upgrade_from_v2(root: &mut Vec<(String, Json)>)
    requires
        keys_sorted(old(root)@),
    ensures
        keys_sorted(final(root)@),
        match member(old(root)@, "operations"@) {
            Some(ops) => member(final(root)@, "operations"@) == Some(ops),
            None => member(final(root)@, "operations"@) matches Some(ops) && is_empty_array(ops),
        },
        member(final(root)@, "schemaVersion"@) == Some(Json::Unsigned(LATEST_PROJECT_VERSION)),
        forall|k: Seq<char>|
            k != "operations"@ && k != "schemaVersion"@ ==> #[trigger] member(final(root)@, k) == member(old(root)@, k),
{
    proof {
        lemma_root_keys_distinct();
    }
    if member_index(root, "operations").is_none() {
        set_member(root, "operations", Json::Array(Vec::new()));
    }
    set_member(root, "schemaVersion", Json::Unsigned(LATEST_PROJECT_VERSION));
}

/// The members every latest document has: `metadata` (empty when missing)
/// and `timeline` (without tracks when missing).
fn canonicalize(root: &mut Vec<(String, Json)>)
    requires
        keys_sorted(old(root)@),
    ensures
        keys_sorted(final(root)@),
        match member(old(root)@, "metadata"@) {
            Some(m) => member(final(root)@, "metadata"@) == Some(m),
            None => member(final(root)@, "metadata"@) matches Some(m) && is_empty_object(m),
        },
        match member(old(root)@, "timeline"@) {
            Some(t) => member(final(root)@, "timeline"@) == Some(t),
            None => member(final(root)@, "timeline"@) matches Some(t) && is_empty_timeline(t),
        },
        forall|k: Seq<char>|
            k != "metadata"@ && k != "timeline"@ ==> #[trigger] member(final(root)@, k) == member(old(root)@, k),
{
    proof {
        lemma_root_keys_distinct();
    }
    if member_index(root, "metadata").is_none() {
        set_member(root, "metadata", Json::Object(Vec::new()));
    }
    if member_index(root, "timeline").is_none() {
        set_member(root, "timeline", Json::Object(vec![("tracks".to_owned(), Json::Array(Vec::new()))]));
    }
}

/// Brings a stored project document to the latest schema version.
///
/// The document must be an object with a `schemaVersion` from 1 to the
/// latest; operations must be a list of objects with a `type`, and an
/// operation of a type this editor does not know fails the migration unless
/// it is marked optional. Unknown optional operations stay in the document
/// unchanged, and their types are reported.
pub fn migrate_to_latest(document: Json) -> (result: Result<MigrationReport, ProjectMigrationError>)
    requires
        document matches Json::Object(members) ==> keys_sorted(members@),
    ensures
        match document {
            Json::Object(root) => match stored_version(root@) {
                None => result == Err::<MigrationReport, ProjectMigrationError>(ProjectMigrationError::InvalidVersion),
                Some(v) => if v == 0 || v > LATEST_PROJECT_VERSION {
                    result == Err::<MigrationReport, ProjectMigrationError>(ProjectMigrationError::UnsupportedVersion(v))
                } else if member(root@, "operations"@) matches Some(ops) && !(ops is Array) {
                    result == Err::<MigrationReport, ProjectMigrationError>(ProjectMigrationError::InvalidOperation(0))
                } else if accepted_before(stored_operations(root@), stored_operations(root@).len() as int) {
                    result matches Ok(report) && migrated(root@, v, report)
                } else {
                    result matches Err(error) && refusal_is(stored_operations(root@), error)
                },
            },
            _ => result == Err::<MigrationReport, ProjectMigrationError>(ProjectMigrationError::InvalidRoot),
        },
{
    let mut root = match document {
        Json::Object(members) => members,
        _ => {
            return Err(ProjectMigrationError::InvalidRoot);
        },
    };
    let ghost stored = root@;
    let version = match member_index(&root, "schemaVersion") {
        Some(i) => match &root[i].1 {
            Json::Unsigned(n) => *n,
            _ => {
                return Err(ProjectMigrationError::InvalidVersion);
            },
        },
        None => {
            return Err(ProjectMigrationError::InvalidVersion);
        },
    };
    if version == 0 || version > LATEST_PROJECT_VERSION {
        return Err(ProjectMigrationError::UnsupportedVersion(version));
    }
    proof {
        lemma_root_keys_distinct();
    }
    if version == 1 {
        upgrade_from_v1(&mut root);
    }
    let ghost after_v1 = root@;
    if version <= 2 {
        upgrade_from_v2(&mut root);
    }
    let ghost upgraded = root@;
    assert(member(upgraded, "operations"@) == member(stored, "operations"@) || (member(stored, "operations"@) is None
        && (member(upgraded, "operations"@) matches Some(ops) && is_empty_array(ops))));
    let preserved = match validate_operations(&root) {
        Ok(names) => names,
        Err(error) => {
            return Err(error);
        },
    };
    canonicalize(&mut root);
    let ghost done = root@;
    assert forall|k: Seq<char>| migrated_member(stored, version, k, #[trigger] member(done, k)) by {
        if version == 1 {
            assert(member(after_v1, k) == member(upgraded, k) || k == "operations"@ || k == "schemaVersion"@);
        }
    }
    Ok(MigrationReport { document: Json::Object(root), preserved_optional_operations: preserved })
}

/// Migrating a migrated document again changes nothing: the document is at
/// the latest version and passes the operation check, and a second
/// migration gives back the same members and the same preserved operation
/// types.
pub proof fn law_migration_is_idempotent(root: Seq<(String, Json)>, report: MigrationReport, again: MigrationReport)
    requires
        stored_version(root) matches Some(v) && 1 <= v <= LATEST_PROJECT_VERSION && migrated(root, v, report),
        !(member(root, "operations"@) matches Some(ops) && !(ops is Array)),
        accepted_before(stored_operations(root), stored_operations(root).len() as int),
        report.document matches Json::Object(out) ==> migrated(out@, LATEST_PROJECT_VERSION, again),
    ensures
        report.document matches Json::Object(out) && keys_sorted(out@) && stored_version(out@) == Some(
            LATEST_PROJECT_VERSION,
        ) && !(member(out@, "operations"@) matches Some(ops) && !(ops is Array)) && accepted_before(
            stored_operations(out@),
            stored_operations(out@).len() as int,
        ),
        report.document matches Json::Object(out) && again.document matches Json::Object(twice) && forall|k: Seq<char>|
            #[trigger] member(twice@, k) == member(out@, k),
        forall|t: Seq<char>|
            #[trigger] has_key(again.preserved_optional_operations@, t) <==> has_key(
                report.preserved_optional_operations@,
                t,
            ),
{
    lemma_root_keys_distinct();
    let v = stored_version(root).unwrap();
    let out = report.document->Object_0;
    let twice = again.document->Object_0;
    assert(migrated_member(root, v, "schemaVersion"@, member(out@, "schemaVersion"@)));
    assert(migrated_member(root, v, "operations"@, member(out@, "operations"@)));
    assert(migrated_member(root, v, "timeline"@, member(out@, "timeline"@)));
    assert(migrated_member(root, v, "metadata"@, member(out@, "metadata"@)));
    let same_ops = stored_operations(out@) == stored_operations(root);
    assert(same_ops || stored_operations(out@).len() == 0);
    assert forall|k: Seq<char>| #[trigger] member(twice@, k) == member(out@, k) by {
        assert(migrated_member(out@, LATEST_PROJECT_VERSION, k, member(twice@, k)));
    }
    assert forall|t: Seq<char>|
        #[trigger] has_key(again.preserved_optional_operations@, t) <==> has_key(
            report.preserved_optional_operations@,
            t,
        ) by {
        if !same_ops {
            assert(!unknown_type_before(stored_operations(out@), stored_operations(out@).len() as int, t));
            assert(stored_operations(root).len() == 0);
            assert(!unknown_type_before(stored_operations(root), stored_operations(root).len() as int, t));
        }
    }
}

/// The operation types this editor applies are never refused: a list whose
/// operations each carry one of `clip.add`, `clip.move`, `clip.remove`,
/// `effect.set` and `track.add` passes the operation check, with no unknown
/// type to preserve.
pub proof fn law_standard_operations_are_accepted(ops: Seq<Json>)
    requires
        forall|i: int|
            0 <= i < ops.len() ==> (#[trigger] operation_type(ops[i]) matches Some(t) && (t == "clip.add"@ || t
                == "clip.move"@ || t == "clip.remove"@ || t == "effect.set"@ || t == "track.add"@)),
    ensures
        accepted_before(ops, ops.len() as int),
        forall|t: Seq<char>| !#[trigger] unknown_type_before(ops, ops.len() as int, t),
{
    assert forall|j: int| 0 <= j < ops.len() implies !operation_rejected(#[trigger] ops[j]) by {
        assert(operation_type(ops[j]) is Some);
    }
    assert forall|t: Seq<char>| !#[trigger] unknown_type_before(ops, ops.len() as int, t) by {
        if unknown_type_before(ops, ops.len() as int, t) {
            let j = choose|j: int| 0 <= j < ops.len() && #[trigger] operation_type(ops[j]) == Some(t) && !known_operation(t);
            assert(operation_type(ops[j]) is Some);
        }
    }
}

} // verus!
