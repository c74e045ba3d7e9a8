use editor_domain::fingerprint::Fingerprint;
use editor_domain::project_collaboration::{
    plain_token, BlobReferences, ProjectLease, RecoveryDrill, ResumableUpload, SharingPolicy, SnapshotHorizon,
};
use editor_domain::project_replica::{ProjectOperation, ProjectReplica};
use editor_domain::timeline::{Clip, ClipId, MoveClipCommand, Operation, OperationId, Timeline, TimelineError};

#[test]
fn upload_blob_lease_recovery_and_sharing_fail_closed() {
    let mut upload = ResumableUpload {
        id: "upload-a".into(),
        total_bytes: 10,
        committed_offset: 0,
        sha256: "a".repeat(64),
        expires_at: 100,
    };
    assert_eq!(upload.append(0, 4, 1), Ok(4));
    assert_eq!(upload.append(0, 2, 1), Err("upload offset conflict"));
    upload.append(4, 6, 1).unwrap();
    assert!(upload.complete());
    let blob = Fingerprint::digest(b"media");
    let mut refs = BlobReferences::default();
    refs.add(blob.clone(), "project-a".into());
    refs.add(blob.clone(), "project-b".into());
    assert!(!refs.remove(&blob, "project-a"));
    assert_eq!(refs.references(&blob), 1);
    assert!(refs.remove(&blob, "project-b"));
    let lease = ProjectLease::acquire(None, "project-a", "alice", 1, 10).unwrap();
    assert!(ProjectLease::acquire(Some(&lease), "project-a", "bob", 2, 10).is_err());
    assert!(RecoveryDrill {
        rpo_seconds: 10,
        rto_seconds: 20,
        integrity_ok: true,
        restore_verified: true
    }
    .passes(30, 60));
    assert!(!SharingPolicy {
        enabled: true,
        recipients: Vec::new(),
        media_scope: Vec::new(),
        encryption: None,
        revocable: false
    }
    .validate());
}

#[test]
fn expired_uploads_and_overruns_are_rejected() {
    let mut upload = ResumableUpload {
        id: "upload-b".into(),
        total_bytes: 10,
        committed_offset: 0,
        sha256: "b".repeat(64),
        expires_at: 5,
    };
    assert!(upload.append(0, 11, 1).is_err());
    assert!(upload.append(0, 1, 5).is_err());
    assert_eq!(upload.committed_offset, 0);
    assert!(!upload.complete());
}

#[test]
fn leases_renew_for_their_holder_and_expire_for_others() {
    let lease = ProjectLease::acquire(None, "p", "alice", 1, 10).unwrap();
    assert_eq!((lease.version, lease.expires_at), (1, 11));
    let renewed = ProjectLease::acquire(Some(&lease), "p", "alice", 5, 10).unwrap();
    assert_eq!((renewed.version, renewed.expires_at), (2, 15));
    let taken = ProjectLease::acquire(Some(&renewed), "p", "bob", 15, 10).unwrap();
    assert_eq!(taken.holder, "bob");
    assert_eq!(ProjectLease::acquire(None, "p", "alice", 1, 0).err().unwrap(), "lease TTL is zero");
}

#[test]
fn a_blob_is_released_only_by_its_last_holder() {
    let blob = Fingerprint::digest(b"a");
    let other = Fingerprint::digest(b"b");
    let mut refs = BlobReferences::new();
    refs.add(blob.clone(), "p".into());
    refs.add(blob.clone(), "p".into());
    assert_eq!(refs.references(&blob), 1);
    assert_eq!(refs.references(&other), 0);
    assert!(!refs.remove(&other, "p"));
    assert!(refs.remove(&blob, "p"));
    assert_eq!(refs.references(&blob), 0);
}

#[test]
fn compaction_waits_for_every_active_client() {
    let horizon = SnapshotHorizon {
        snapshot_fingerprint: Fingerprint::digest(b"snapshot"),
        state_vector: vec![("alice".to_owned(), 10)],
        acknowledgements: vec![
            ("c1".to_owned(), vec![("alice".to_owned(), 12)]),
            ("c2".to_owned(), vec![("alice".to_owned(), 9)]),
        ],
    };
    assert!(!horizon.can_compact(&["c1".to_owned(), "c2".to_owned()]));
    assert!(horizon.can_compact(&["c1".to_owned()]));
    assert!(!horizon.can_compact(&["c3".to_owned()]));
    assert!(horizon.can_compact(&[]));
}

#[test]
fn tokens_are_bounded_and_plain() {
    assert!(plain_token("project-a_1", 64));
    assert!(!plain_token("", 64));
    assert!(!plain_token("a b", 64));
    assert!(!plain_token("abc", 2));
}

fn clip(id: &str) -> Clip {
    Clip {
        id: ClipId::parse(id).unwrap(),
        source_id: "source".to_owned(),
        label: id.to_owned(),
        duration_ticks: 1_000,
    }
}

fn clip_ids(timeline: &Timeline) -> Vec<String> {
    timeline.clips().iter().map(|clip| clip.id.as_str().to_owned()).collect()
}

#[test]
fn stable_references_survive_reorder_and_undo() {
    let first = clip("clip-a");
    let second = clip("clip-b");
    let timeline = Timeline::new(1_000)
        .unwrap()
        .insert_clip(0, first.clone())
        .unwrap()
        .insert_clip(1, second)
        .unwrap()
        .add_operation(Operation::Effect {
            id: OperationId::parse("operation-a").unwrap(),
            clip_id: first.id.clone(),
            effect: "opacity".to_owned(),
            parameters: vec![("value".to_owned(), 0.5f64.to_bits())],
        })
        .unwrap();
    let command = MoveClipCommand {
        clip_id: first.id.clone(),
        from: 0,
        to: 1,
    };
    let moved = command.apply(&timeline).unwrap();
    assert_eq!(clip_ids(&moved), vec!["clip-b", "clip-a"]);
    let restored = command.invert().apply(&moved).unwrap();
    assert_eq!(clip_ids(&restored), clip_ids(&timeline));
    assert_eq!(restored.operations().len(), 1);
    assert_eq!(restored.operations()[0].clip_id().as_str(), "clip-a");
}

#[test]
fn timeline_edits_fail_closed() {
    assert!(matches!(Timeline::new(0), Err(TimelineError::InvalidTimeBase)));
    let timeline = Timeline::new(1_000).unwrap().insert_clip(0, clip("a")).unwrap();
    assert!(matches!(timeline.insert_clip(0, clip("a")), Err(TimelineError::DuplicateClip(_))));
    assert!(matches!(timeline.insert_clip(5, clip("b")), Err(TimelineError::InvalidIndex(5))));
    let dangling = Operation::Trim {
        id: OperationId::parse("op").unwrap(),
        clip_id: ClipId::parse("missing").unwrap(),
        start_tick: 0,
        end_tick: 10,
    };
    assert!(matches!(timeline.add_operation(dangling), Err(TimelineError::MissingClip(_))));
    let backwards = Operation::Trim {
        id: OperationId::parse("op").unwrap(),
        clip_id: ClipId::parse("a").unwrap(),
        start_tick: 10,
        end_tick: 10,
    };
    assert!(matches!(timeline.add_operation(backwards), Err(TimelineError::InvalidTrim)));
    let wrong = MoveClipCommand { clip_id: ClipId::parse("a").unwrap(), from: 1, to: 0 };
    assert!(matches!(wrong.apply(&timeline), Err(TimelineError::CommandPrecondition)));
    assert!(matches!(
        timeline.remove_operation(&OperationId::parse("none").unwrap()),
        Err(TimelineError::MissingOperation(_))
    ));
}

#[test]
fn generated_ids_are_distinct_uuids() {
    let a = ClipId::new();
    let b = ClipId::new();
    assert_ne!(a.as_str(), b.as_str());
    assert_eq!(a.as_str().len(), 36);
    assert!(ClipId::parse(a.as_str()).is_ok());
}

fn payload(pairs: &[(&str, serde_json::Value)]) -> String {
    let mut object = serde_json::Map::new();
    for (key, value) in pairs {
        object.insert((*key).to_owned(), value.clone());
    }
    serde_json::to_string(&serde_json::Value::Object(object)).unwrap()
}

fn operation(actor: &str, sequence: u64, id: &str) -> ProjectOperation {
    ProjectOperation {
        id: id.into(),
        actor: actor.into(),
        sequence,
        transaction: format!("tx-{id}"),
        kind: "clip.move".into(),
        payload: payload(&[("clipId", serde_json::Value::from("clip-a")), ("ticks", serde_json::Value::from(sequence))]),
    }
}

#[test]
fn replay_sync_and_selective_undo_are_deterministic_and_idempotent() {
    let mut replica = ProjectReplica::default();
    assert!(replica.apply(operation("alice", 1, "op-a")).unwrap());
    assert!(!replica.apply(operation("alice", 1, "op-a")).unwrap());
    replica.apply(operation("bob", 1, "op-b")).unwrap();
    let fingerprint = replica.fingerprint();
    let missing = replica.missing_for(&[("alice".to_owned(), 1)]);
    assert_eq!(missing.iter().map(|item| item.id.as_str()).collect::<Vec<_>>(), ["op-b"]);
    let undo = replica.selective_undo("alice").unwrap();
    let undo_payload: serde_json::Value = serde_json::from_str(&undo.payload).unwrap();
    assert_eq!(undo_payload["operationId"], "op-a");
    assert_eq!(replica.fingerprint(), fingerprint);
}

#[test]
fn compaction_requires_every_active_ack_and_operations_reject_media_bytes() {
    let horizon = SnapshotHorizon {
        snapshot_fingerprint: Fingerprint::digest(b"snapshot"),
        state_vector: vec![("alice".to_owned(), 2)],
        acknowledgements: vec![("desktop".to_owned(), vec![("alice".to_owned(), 2)])],
    };
    assert!(horizon.can_compact(&["desktop".to_owned()]));
    assert!(!horizon.can_compact(&["desktop".to_owned(), "offline-laptop".to_owned()]));
    let mut invalid = operation("alice", 1, "op-media");
    invalid.payload = payload(&[("mediaBytes", serde_json::Value::from("AAAA"))]);
    assert!(!invalid.validate());
}

#[test]
fn replay_conflicts_and_invalid_operations_are_refused() {
    let mut replica = ProjectReplica::default();
    replica.apply(operation("alice", 1, "op-a")).unwrap();
    assert_eq!(replica.apply(operation("alice", 1, "op-other")), Err("actor sequence conflict"));
    assert_eq!(replica.apply(operation("alice", 0, "op-zero")), Err("invalid project operation"));
    assert_eq!(replica.apply(operation("al ice", 2, "op-c")), Err("invalid project operation"));
    assert_eq!(replica.len(), 1);
}

#[test]
fn media_keys_are_found_at_any_depth_but_not_in_values() {
    let nested = r#"{"clip":{"items":[{"blob":"x"}]}}"#;
    let mut op = operation("alice", 1, "op-n");
    op.payload = nested.to_owned();
    assert!(!op.validate());
    op.payload = r#"{"note":"blob","text":"\"base64\":"}"#.to_owned();
    assert!(op.validate());
    op.payload = format!("\"{}\"", "a".repeat(70_000));
    assert!(!op.validate());
}

#[test]
fn state_vector_and_undo_use_the_latest_sequence() {
    let mut replica = ProjectReplica::default();
    replica.apply(operation("bob", 3, "op-b3")).unwrap();
    replica.apply(operation("alice", 2, "op-a2")).unwrap();
    replica.apply(operation("alice", 1, "op-a1")).unwrap();
    assert_eq!(replica.state_vector(), vec![("alice".to_owned(), 2), ("bob".to_owned(), 3)]);
    let undo = replica.selective_undo("alice").unwrap();
    assert_eq!(undo.id, "undo:op-a2");
    assert_eq!(undo.sequence, 3);
    assert_eq!(undo.kind, "undo:clip.move");
    replica.apply(undo).unwrap();
    let second = replica.selective_undo("alice").unwrap();
    assert_eq!(second.id, "undo:op-a2");
    assert_eq!(second.sequence, 4);
    assert!(replica.selective_undo("carol").is_none());
}

#[test]
fn replica_fingerprint_digests_the_operations_as_json() {
    let mut replica = ProjectReplica::default();
    replica.apply(operation("alice", 1, "op-a")).unwrap();
    let expected = format!(
        "[{{\"id\":\"op-a\",\"actor\":\"alice\",\"sequence\":1,\"transaction\":\"tx-op-a\",\"kind\":\"clip.move\",\"payload\":{}}}]",
        operation("alice", 1, "op-a").payload
    );
    assert_eq!(replica.fingerprint(), Fingerprint::digest(expected.as_bytes()));
}

#[test]
fn replay_order_does_not_change_the_replica() {
    let mut first = ProjectReplica::default();
    let mut second = ProjectReplica::default();
    for op in [operation("bob", 1, "b"), operation("alice", 2, "a2"), operation("alice", 1, "a1")] {
        first.apply(op).unwrap();
    }
    for op in [operation("alice", 1, "a1"), operation("bob", 1, "b"), operation("alice", 2, "a2")] {
        second.apply(op).unwrap();
    }
    assert_eq!(first.fingerprint(), second.fingerprint());
}
