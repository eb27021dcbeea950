use itgla::domain::ServerColumn;
use itgla::import_data::TabularData;
use itgla::import_mapping::{
    column_sample, default_mapping, default_mappings, import_target, import_targets,
    mapping_options, set_mapping, ImportSession, ServerImportTarget,
};

fn columns() -> Vec<ServerColumn> {
    vec![
        ServerColumn { id: 7, name: "Owner".into() },
        ServerColumn { id: 9, name: "Rack".into() },
    ]
}

fn session() -> ImportSession {
    ImportSession {
        data: Some(TabularData {
            headers: vec!["Tags".into(), "Owner".into(), "Notes".into()],
            rows: vec![
                vec!["a".into(), "".into(), "x".into()],
                vec!["b".into(), "ops".into(), "y".into()],
                vec!["c".into(), "dev".into(), "".into()],
                vec!["d".into(), "sre".into(), "z".into()],
            ],
        }),
        mappings: vec![1, 4, 6],
        existing_columns: columns(),
    }
}

#[test]
fn mapping_options_list_fields_and_columns() {
    assert_eq!(
        mapping_options(&columns()),
        vec!["Skip", "Tags", "IP Address", "Ports", "Existing: Owner", "Existing: Rack", "New custom column"]
    );
}

#[test]
fn default_mappings_recognize_headers() {
    let cols = columns();
    assert_eq!(default_mapping("Labels", &cols), 1);
    assert_eq!(default_mapping(" IP-Address ", &cols), 2);
    assert_eq!(default_mapping("Host", &cols), 2);
    assert_eq!(default_mapping("Open ports", &cols), 3);
    assert_eq!(default_mapping(" rack ", &cols), 5);
    assert_eq!(default_mapping("Notes", &cols), 6);
    assert_eq!(default_mappings(&vec!["tag".into(), "owner".into()], &cols), vec![1, 4]);
}

#[test]
fn import_targets_follow_the_mappings() {
    let s = session();
    assert_eq!(import_target(0, 0, &s), Some(ServerImportTarget::Skip));
    assert_eq!(import_target(0, 3, &s), Some(ServerImportTarget::Ports));
    assert_eq!(import_target(1, 5, &s), Some(ServerImportTarget::ExistingCustom(9)));
    assert_eq!(import_target(2, 6, &s), Some(ServerImportTarget::NewCustom("Notes".into())));
    assert_eq!(import_target(5, 6, &s), None);
    assert_eq!(import_target(0, 7, &s), None);
    assert_eq!(
        import_targets(&s),
        Some(vec![
            ServerImportTarget::Tags,
            ServerImportTarget::ExistingCustom(7),
            ServerImportTarget::NewCustom("Notes".into()),
        ])
    );
    let mut broken = session();
    broken.mappings[1] = 42;
    assert_eq!(import_targets(&broken), None);
}

#[test]
fn mapping_changes_clamp_and_ignore_unknown_columns() {
    let mut s = session();
    set_mapping(&mut s, 1, -5);
    assert_eq!(s.mappings, vec![1, 0, 6]);
    set_mapping(&mut s, -1, 3);
    assert_eq!(s.mappings, vec![3, 0, 6]);
    set_mapping(&mut s, 9, 2);
    assert_eq!(s.mappings, vec![3, 0, 6]);
}

#[test]
fn column_samples_use_the_first_three_rows() {
    let s = session();
    let data = s.data.as_ref().unwrap();
    assert_eq!(column_sample(data, 0), "a | b | c");
    assert_eq!(column_sample(data, 1), "ops | dev");
    assert_eq!(column_sample(data, 2), "x | y");
    assert_eq!(column_sample(data, 9), "");
}

#[test]
fn a_new_session_is_empty() {
    let s = ImportSession::default();
    assert!(s.data.is_none());
    assert!(s.mappings.is_empty());
    assert!(s.existing_columns.is_empty());
}
