use editor_domain::json::Json;
use editor_domain::project_version::{migrate_to_latest, ProjectMigrationError, LATEST_PROJECT_VERSION};

fn text(s: &str) -> Json {
    Json::Text(s.to_owned())
}

/// An object with its members put in key order, as the document store keeps
/// them.
fn object(members: Vec<(&str, Json)>) -> Json {
    let mut members: Vec<(String, Json)> = members.into_iter().map(|(k, v)| (k.to_owned(), v)).collect();
    members.sort_by(|a, b| a.0.cmp(&b.0));
    Json::Object(members)
}

fn operation(kind: &str) -> Json {
    object(vec![("type", text(kind))])
}

fn optional_operation(kind: &str) -> Json {
    object(vec![("type", text(kind)), ("optional", Json::Bool(true))])
}

fn clips() -> Json {
    Json::Array(vec![object(vec![("id", text("clip-1")), ("source", text("a.mp4"))])])
}

fn v1_document() -> Json {
    object(vec![("schemaVersion", Json::Unsigned(1)), ("name", text("Trip")), ("clips", clips())])
}

fn v2_document() -> Json {
    object(vec![
        ("schemaVersion", Json::Unsigned(2)),
        ("name", text("Trip")),
        ("timeline", object(vec![("tracks", Json::Array(vec![object(vec![("clips", clips())])]))])),
    ])
}

fn latest_document() -> Json {
    object(vec![
        ("schemaVersion", Json::Unsigned(3)),
        ("name", text("Trip")),
        ("metadata", object(vec![])),
        ("operations", Json::Array(vec![])),
        ("timeline", object(vec![("tracks", Json::Array(vec![object(vec![("clips", clips())])]))])),
    ])
}

#[test]
fn golden_versions_migrate_to_latest() {
    let expected = latest_document();
    for document in [v1_document(), v2_document(), latest_document()] {
        assert_eq!(migrate_to_latest(document).unwrap().document, expected);
    }
}

#[test]
fn unknown_required_operations_fail_closed() {
    let document = object(vec![
        ("schemaVersion", Json::Unsigned(3)),
        ("operations", Json::Array(vec![operation("clip.add"), operation("future.magic")])),
    ]);
    assert_eq!(
        migrate_to_latest(document).err().unwrap(),
        ProjectMigrationError::UnknownRequiredOperation("future.magic".into())
    );
}

fn unknown_optional_document() -> Json {
    object(vec![
        ("schemaVersion", Json::Unsigned(3)),
        ("metadata", object(vec![("author", text("me"))])),
        ("timeline", object(vec![("tracks", Json::Array(vec![]))])),
        (
            "operations",
            Json::Array(vec![operation("clip.add"), optional_operation("vendor.annotation"), operation("track.add")]),
        ),
    ])
}

#[test]
fn unknown_optional_operations_are_preserved() {
    let report = migrate_to_latest(unknown_optional_document()).unwrap();
    assert_eq!(report.document, unknown_optional_document());
    assert_eq!(report.preserved_optional_operations, vec!["vendor.annotation".to_owned()]);
}

#[test]
fn version_one_moves_clips_into_a_single_track_timeline() {
    let report = migrate_to_latest(object(vec![("schemaVersion", Json::Unsigned(1))])).unwrap();
    assert_eq!(
        report.document,
        object(vec![
            ("schemaVersion", Json::Unsigned(LATEST_PROJECT_VERSION)),
            ("metadata", object(vec![])),
            ("operations", Json::Array(vec![])),
            ("timeline", object(vec![("tracks", Json::Array(vec![object(vec![("clips", Json::Array(vec![]))])]))])),
        ])
    );
    assert!(report.preserved_optional_operations.is_empty());
}

#[test]
fn latest_documents_gain_only_the_missing_canonical_members() {
    let report = migrate_to_latest(object(vec![("schemaVersion", Json::Unsigned(3)), ("extra", Json::Null)])).unwrap();
    assert_eq!(
        report.document,
        object(vec![
            ("schemaVersion", Json::Unsigned(3)),
            ("extra", Json::Null),
            ("metadata", object(vec![])),
            ("timeline", object(vec![("tracks", Json::Array(vec![]))])),
        ])
    );
}

#[test]
fn preserved_types_are_reported_once_and_in_order() {
    let document = object(vec![
        ("schemaVersion", Json::Unsigned(2)),
        (
            "operations",
            Json::Array(vec![
                optional_operation("vendor.zeta"),
                optional_operation("vendor.alpha"),
                optional_operation("vendor.zeta"),
            ]),
        ),
    ]);
    let report = migrate_to_latest(document).unwrap();
    assert_eq!(report.preserved_optional_operations, vec!["vendor.alpha".to_owned(), "vendor.zeta".to_owned()]);
}

#[test]
fn malformed_documents_are_refused_in_order() {
    assert_eq!(migrate_to_latest(Json::Array(vec![])).err().unwrap(), ProjectMigrationError::InvalidRoot);
    assert_eq!(migrate_to_latest(object(vec![])).err().unwrap(), ProjectMigrationError::InvalidVersion);
    assert_eq!(
        migrate_to_latest(object(vec![("schemaVersion", Json::Negative(-1))])).err().unwrap(),
        ProjectMigrationError::InvalidVersion
    );
    assert_eq!(
        migrate_to_latest(object(vec![("schemaVersion", Json::Decimal("2.5".into()))])).err().unwrap(),
        ProjectMigrationError::InvalidVersion
    );
    assert_eq!(
        migrate_to_latest(object(vec![("schemaVersion", Json::Unsigned(0))])).err().unwrap(),
        ProjectMigrationError::UnsupportedVersion(0)
    );
    assert_eq!(
        migrate_to_latest(object(vec![("schemaVersion", Json::Unsigned(4))])).err().unwrap(),
        ProjectMigrationError::UnsupportedVersion(4)
    );
    assert_eq!(
        migrate_to_latest(object(vec![("schemaVersion", Json::Unsigned(3)), ("operations", object(vec![]))]))
            .err()
            .unwrap(),
        ProjectMigrationError::InvalidOperation(0)
    );
    assert_eq!(
        migrate_to_latest(object(vec![
            ("schemaVersion", Json::Unsigned(3)),
            ("operations", Json::Array(vec![operation("clip.move"), object(vec![("kind", text("clip.add"))])])),
        ]))
        .err()
        .unwrap(),
        ProjectMigrationError::InvalidOperation(1)
    );
    assert_eq!(
        migrate_to_latest(object(vec![
            ("schemaVersion", Json::Unsigned(3)),
            ("operations", Json::Array(vec![operation("future.magic"), Json::Null])),
        ]))
        .err()
        .unwrap(),
        ProjectMigrationError::UnknownRequiredOperation("future.magic".into())
    );
}

#[test]
fn migrating_a_migrated_document_changes_nothing() {
    for make in [v1_document, v2_document, unknown_optional_document] {
        let once = migrate_to_latest(make()).unwrap();
        let again = migrate_to_latest(migrate_to_latest(make()).unwrap().document).unwrap();
        assert_eq!(again.document, once.document);
        assert_eq!(again.preserved_optional_operations, once.preserved_optional_operations);
    }
}
