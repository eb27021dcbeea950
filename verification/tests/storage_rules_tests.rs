use itgla::domain::{AssetDraft, Health, ResourceKind, ValidationError};
use itgla::storage_rules::{
    asset_from_row, can_archive_project, data_location, needs_seed, parse_health, parse_kind,
    prepare_asset, schema_step, split_stored_tags, DataLocation, SchemaStep, SchemaTooNew,
};

#[test]
fn schema_versions_decide_the_migration() {
    assert_eq!(schema_step(0), Ok(SchemaStep::Create));
    assert_eq!(schema_step(1), Ok(SchemaStep::Keep));
    assert_eq!(schema_step(99), Err(SchemaTooNew { found: 99, supported: 1 }));
}

#[test]
fn stored_keys_read_back() {
    for kind in [
        ResourceKind::Website,
        ResourceKind::Domain,
        ResourceKind::Certificate,
        ResourceKind::Server,
        ResourceKind::Service,
    ] {
        assert_eq!(parse_kind(kind.key()), kind);
    }
    assert_eq!(parse_kind("unknown"), ResourceKind::Service);
    for health in [Health::Healthy, Health::Warning, Health::Critical] {
        assert_eq!(parse_health(health.key()), health);
    }
    assert_eq!(parse_health("Warning"), Health::Healthy);
}

#[test]
fn stored_tag_lists_split_at_comma_space() {
    assert_eq!(split_stored_tags("backend, payments"), vec!["backend", "payments"]);
    assert!(split_stored_tags("").is_empty());
    assert_eq!(split_stored_tags("a,, b"), vec!["a,", "b"]);
    assert_eq!(split_stored_tags("x, , y,z"), vec!["x", "y,z"]);
}

#[test]
fn seeding_and_archiving_rules() {
    assert!(needs_seed(0));
    assert!(!needs_seed(3));
    assert!(can_archive_project(2));
    assert!(!can_archive_project(1));
    assert!(!can_archive_project(0));
}

fn draft(name: &str) -> AssetDraft {
    AssetDraft {
        project_id: 7,
        kind: ResourceKind::Certificate,
        name: name.into(),
        detail: "  wildcard  ".into(),
        status_detail: " expires soon ".into(),
        environment: "\tProduction\n".into(),
        health: Health::Warning,
        tags: vec!["tls".into(), "edge".into()],
    }
}

#[test]
fn resources_are_prepared_for_writing() {
    let row = prepare_asset(&draft("  api.example.com  ")).unwrap();
    assert_eq!(row.project_id, 7);
    assert_eq!(row.kind_key, "certificate");
    assert_eq!(row.name, "api.example.com");
    assert_eq!(row.detail, "wildcard");
    assert_eq!(row.status_detail, "expires soon");
    assert_eq!(row.environment, "Production");
    assert_eq!(row.health_key, "warning");
    assert_eq!(row.tags, vec!["tls", "edge"]);
}

#[test]
fn resource_names_are_validated_before_writing() {
    assert_eq!(prepare_asset(&draft("   ")), Err(ValidationError::EmptyName));
    let long = "x".repeat(241);
    assert_eq!(prepare_asset(&draft(&long)), Err(ValidationError::NameTooLong(240)));
    assert!(prepare_asset(&draft(&"y".repeat(240))).is_ok());
}

#[test]
fn resources_are_read_from_stored_rows() {
    let asset = asset_from_row(
        3,
        7,
        "domain",
        "example.com".into(),
        "registrar".into(),
        "renews".into(),
        "Production".into(),
        "critical",
        "dns, public",
    );
    assert_eq!(asset.id, 3);
    assert_eq!(asset.project_id, 7);
    assert_eq!(asset.kind, ResourceKind::Domain);
    assert_eq!(asset.name, "example.com");
    assert_eq!(asset.health, Health::Critical);
    assert_eq!(asset.tags, vec!["dns", "public"]);
    let plain = asset_from_row(4, 7, "?", "n".into(), "".into(), "".into(), "".into(), "?", "");
    assert_eq!(plain.kind, ResourceKind::Service);
    assert_eq!(plain.health, Health::Healthy);
    assert!(plain.tags.is_empty());
}

#[test]
fn data_directory_prefers_the_named_one() {
    assert_eq!(
        data_location(Some("/srv/itgla".into()), Some("/home/u/.local/share".into())),
        Some(DataLocation::Given("/srv/itgla".into()))
    );
    assert_eq!(
        data_location(Some(String::new()), Some("/home/u/.local/share".into())),
        Some(DataLocation::Under("/home/u/.local/share".into()))
    );
    assert_eq!(data_location(None, Some("C:/AppData".into())), Some(DataLocation::Under("C:/AppData".into())));
    assert_eq!(data_location(None, None), None);
}

#[test]
fn rejects_unknown_newer_schema() {
    assert_eq!(schema_step(99), Err(SchemaTooNew { found: 99, supported: 1 }));
}
