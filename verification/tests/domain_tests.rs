use itgla::domain::{
    filter_assets, kind_from_label, normalize_ports, parse_tags, server_tags_from_input,
    validate_name, validate_server, Asset, Health, RelationshipKind, ResourceKind, ServerDraft,
    ServerValidationError, ValidationError,
};

fn asset(kind: ResourceKind, name: &str) -> Asset {
    Asset {
        id: 1,
        project_id: 1,
        kind,
        name: name.into(),
        detail: "Docker · production".into(),
        status_detail: "healthy".into(),
        environment: "Production".into(),
        health: Health::Healthy,
        tags: vec!["Docker".into()],
    }
}

#[test]
fn validates_and_normalizes_server_records() {
    let draft = ServerDraft {
        tags: vec!["  production  ".into(), "api".into(), "PRODUCTION".into()],
        ip_address: " 203.0.113.10 ".into(),
        ports: "443, 22, 443".into(),
    };
    // " 203.0.113.10 " trims to a valid IPv4 address.
    assert_eq!(
        validate_server(&draft, true),
        Ok(ServerDraft {
            tags: vec!["production".into(), "api".into()],
            ip_address: "203.0.113.10".into(),
            ports: "443, 22".into(),
        })
    );
}

#[test]
fn rejects_invalid_server_addresses_and_ports() {
    let mut draft = ServerDraft {
        tags: vec!["database".into()],
        ip_address: "not-an-ip".into(),
        ports: "5432".into(),
    };
    // "not-an-ip" is not an IP address.
    assert_eq!(
        validate_server(&draft, false),
        Err(ServerValidationError::InvalidIpAddress)
    );
    draft.ip_address = "2001:db8::10".into();
    draft.ports = "0, 70000".into();
    // "2001:db8::10" is a valid IPv6 address.
    assert_eq!(
        validate_server(&draft, true),
        Err(ServerValidationError::InvalidPort)
    );
}

#[test]
fn filters_by_project_kind_and_query() {
    let assets = [
        asset(ResourceKind::Service, "sync-worker"),
        asset(ResourceKind::Service, "notes-api"),
        asset(ResourceKind::Domain, "cloudnote.io"),
    ];
    let services = filter_assets(&assets, Some(ResourceKind::Service), "");
    assert_eq!(services.len(), 2);
    assert!(
        services
            .iter()
            .all(|asset| asset.kind == ResourceKind::Service)
    );

    let worker = filter_assets(&assets, None, "WORKER");
    assert_eq!(worker.len(), 1);
    assert_eq!(worker[0].name, "sync-worker");
}

#[test]
fn empty_results_are_explicit() {
    let assets = [asset(ResourceKind::Website, "cloudnote.io")];
    assert!(filter_assets(&assets, None, "not-a-real-resource").is_empty());
}

#[test]
fn tags_are_trimmed_deduplicated_and_searchable() {
    assert_eq!(
        parse_tags(" production, Docker\u{ff0c}production "),
        Ok(vec!["production".into(), "Docker".into()])
    );
    let assets = [asset(ResourceKind::Service, "notes-api")];
    assert_eq!(filter_assets(&assets, None, "docker").len(), 1);
}

#[test]
fn server_tags_need_at_least_one_tag() {
    let draft = ServerDraft {
        tags: vec!["  ".into(), "".into()],
        ip_address: "10.0.0.1".into(),
        ports: "22".into(),
    };
    assert_eq!(validate_server(&draft, true), Err(ServerValidationError::EmptyTags));
}

#[test]
fn server_tags_longer_than_48_characters_are_refused() {
    let draft = ServerDraft {
        tags: vec!["ok".into(), "x".repeat(49)],
        ip_address: "10.0.0.1".into(),
        ports: "22".into(),
    };
    assert_eq!(validate_server(&draft, true), Err(ServerValidationError::TagTooLong));
    let exact = ServerDraft {
        tags: vec!["é".repeat(48)],
        ip_address: "10.0.0.1".into(),
        ports: "22".into(),
    };
    assert!(validate_server(&exact, true).is_ok());
}

#[test]
fn server_tag_count_is_bounded() {
    let tags: Vec<String> = (0..21).map(|i| format!("tag{i}")).collect();
    let draft = ServerDraft { tags, ip_address: "10.0.0.1".into(), ports: "22".into() };
    assert_eq!(validate_server(&draft, true), Err(ServerValidationError::TooManyTags));
    let twenty: Vec<String> = (0..20).map(|i| format!("tag{i}")).collect();
    let ok = ServerDraft { tags: twenty, ip_address: "10.0.0.1".into(), ports: "22".into() };
    assert!(validate_server(&ok, true).is_ok());
}

#[test]
fn duplicate_server_tags_ignore_ascii_case_only() {
    let draft = ServerDraft {
        tags: vec!["Ärger".into(), "äRGER".into(), "ärger".into()],
        ip_address: "10.0.0.1".into(),
        ports: "22".into(),
    };
    let validated = validate_server(&draft, true).unwrap();
    assert_eq!(validated.tags, vec!["Ärger".to_string(), "äRGER".to_string()]);
}

#[test]
fn port_lists_are_normalized() {
    assert_eq!(normalize_ports(" 8080 ,, +22, 8080,0022 "), Ok("8080, 22".to_string()));
    assert_eq!(normalize_ports("65535"), Ok("65535".to_string()));
    assert_eq!(normalize_ports(" , "), Err(ServerValidationError::EmptyPorts));
    assert_eq!(normalize_ports("65536"), Err(ServerValidationError::InvalidPort));
    assert_eq!(normalize_ports("-1"), Err(ServerValidationError::InvalidPort));
    assert_eq!(normalize_ports("+"), Err(ServerValidationError::InvalidPort));
    assert_eq!(normalize_ports("22x"), Err(ServerValidationError::InvalidPort));
    let many: Vec<String> = (1..=33).map(|p| p.to_string()).collect();
    assert_eq!(normalize_ports(&many.join(",")), Err(ServerValidationError::TooManyPorts));
    let thirty_two: Vec<String> = (1..=32).map(|p| p.to_string()).collect();
    assert_eq!(normalize_ports(&thirty_two.join(",")), Ok(thirty_two.join(", ")));
}

#[test]
fn tag_errors_come_before_address_and_port_errors() {
    let draft = ServerDraft {
        tags: vec!["x".repeat(60)],
        ip_address: "nope".into(),
        ports: "0".into(),
    };
    assert_eq!(validate_server(&draft, false), Err(ServerValidationError::TagTooLong));
    let draft = ServerDraft { tags: vec!["a".into()], ip_address: "nope".into(), ports: "".into() };
    assert_eq!(validate_server(&draft, false), Err(ServerValidationError::InvalidIpAddress));
    assert_eq!(validate_server(&draft, true), Err(ServerValidationError::EmptyPorts));
}

#[test]
fn validated_servers_validate_to_themselves() {
    let draft = ServerDraft {
        tags: vec![" web ".into(), "WEB".into(), "edge".into()],
        ip_address: "\t192.0.2.7\n".into(),
        ports: "443,80, 443".into(),
    };
    let once = validate_server(&draft, true).unwrap();
    let twice = validate_server(&once, true).unwrap();
    assert_eq!(once, twice);
    assert_eq!(once.ports, "443, 80");
}

#[test]
fn server_tag_input_splits_at_commas() {
    assert_eq!(server_tags_from_input("a, b,,c"), vec!["a", " b", "", "c"]);
    assert_eq!(server_tags_from_input(""), vec![""]);
}

#[test]
fn names_are_trimmed_and_bounded() {
    assert_eq!(validate_name("  Atlas  ", 120), Ok("Atlas".to_string()));
    assert_eq!(validate_name(" \t ", 120), Err(ValidationError::EmptyName));
    assert_eq!(validate_name("abcd", 3), Err(ValidationError::NameTooLong(3)));
    assert_eq!(validate_name("日本語", 3), Ok("日本語".to_string()));
}

#[test]
fn tag_lists_are_bounded() {
    let long = format!("ok, {}", "y".repeat(49));
    assert_eq!(parse_tags(&long), Err(ValidationError::TagTooLong));
    let many: Vec<String> = (0..21).map(|i| format!("t{i}")).collect();
    assert_eq!(parse_tags(&many.join(",")), Err(ValidationError::TooManyTags));
    assert_eq!(parse_tags(""), Ok(vec![]));
    assert_eq!(parse_tags("Prod, prod"), Ok(vec!["Prod".to_string(), "prod".to_string()]));
}

#[test]
fn kinds_round_trip_through_their_positions_and_labels() {
    for index in 0..5 {
        let kind = ResourceKind::from_index(index);
        assert_eq!(kind.index(), index);
        assert_eq!(kind_from_label(kind.label()), Some(kind));
    }
    assert_eq!(ResourceKind::from_index(-3), ResourceKind::Website);
    assert_eq!(ResourceKind::from_index(9), ResourceKind::Website);
    assert_eq!(ResourceKind::Service.mark(), "A");
    assert_eq!(ResourceKind::Certificate.key(), "certificate");
    assert_eq!(kind_from_label("service"), None);
}

#[test]
fn health_and_relationship_kinds_map_numbers() {
    assert_eq!(Health::from_index(1), Health::Warning);
    assert_eq!(Health::from_index(2), Health::Critical);
    assert_eq!(Health::from_index(7), Health::Healthy);
    assert_eq!(Health::Critical.index(), 2);
    assert_eq!(Health::Warning.label(), "Attention");
    assert_eq!(Health::Warning.key(), "warning");
    assert_eq!(RelationshipKind::from_index(-1), RelationshipKind::DeploysTo);
    assert_eq!(RelationshipKind::from_index(4), RelationshipKind::Serves);
    assert_eq!(RelationshipKind::from_index(5), RelationshipKind::DependsOn);
    assert_eq!(RelationshipKind::ProtectedBy.key(), "protected_by");
    assert_eq!(RelationshipKind::UsesDomain.label(), "Uses domain");
}

#[test]
fn asset_search_covers_detail_and_kind_label() {
    let assets = [
        asset(ResourceKind::Service, "alpha"),
        asset(ResourceKind::Website, "beta"),
    ];
    assert_eq!(filter_assets(&assets, None, "  PRODUCTION ").len(), 2);
    let found = filter_assets(&assets, None, "service");
    assert_eq!(found.len(), 1);
    assert_eq!(found[0].name, "alpha");
    let found = filter_assets(&assets, None, " WEBSITE ");
    assert_eq!(found.len(), 1);
    assert_eq!(found[0].name, "beta");
    let found = filter_assets(&assets, None, "Service");
    assert_eq!(found.len(), 1);
    assert_eq!(found[0].name, "alpha");
    assert_eq!(filter_assets(&assets, Some(ResourceKind::Domain), "").len(), 0);
}

#[test]
fn validation_errors_have_user_messages() {
    assert_eq!(ServerValidationError::EmptyTags.message(), "Enter at least one tag");
    assert_eq!(
        ServerValidationError::InvalidPort.message(),
        "Ports must be numbers from 1 to 65535, separated by commas"
    );
    assert_eq!(ValidationError::NameTooLong(120).message(), "Name must be 120 characters or fewer");
    assert_eq!(ValidationError::EmptyName.message(), "Name is required");
    assert_eq!(
        ValidationError::Server(ServerValidationError::TooManyPorts).message(),
        "A server can have at most 32 ports"
    );
}

#[test]
fn server_errors_convert_into_validation_errors() {
    let error: ValidationError = ServerValidationError::InvalidIpAddress.into();
    assert_eq!(error, ValidationError::Server(ServerValidationError::InvalidIpAddress));
    assert_eq!(error.message(), "Enter a valid IPv4 or IPv6 address");
}

#[test]
fn tag_editor_text_splits_into_one_piece_per_comma_and_joins_back() {
    for text in ["a, b,,c", "", ",", "production,  api ", "no commas"] {
        let pieces = server_tags_from_input(text);
        assert_eq!(pieces.len(), text.matches(',').count() + 1);
        assert!(pieces.iter().all(|piece| !piece.contains(',')));
        assert_eq!(pieces.join(","), text);
    }
}

#[test]
fn every_kind_is_listed_in_order() {
    assert_eq!(
        ResourceKind::ALL,
        [
            ResourceKind::Website,
            ResourceKind::Domain,
            ResourceKind::Certificate,
            ResourceKind::Server,
            ResourceKind::Service,
        ]
    );
    for (position, kind) in ResourceKind::ALL.iter().enumerate() {
        assert_eq!(kind.index(), position as i32);
        assert_eq!(ResourceKind::from_index(position as i32), *kind);
    }
    assert_eq!(
        RelationshipKind::ALL,
        [
            RelationshipKind::DeploysTo,
            RelationshipKind::UsesDomain,
            RelationshipKind::ProtectedBy,
            RelationshipKind::DependsOn,
            RelationshipKind::Serves,
        ]
    );
    for (position, kind) in RelationshipKind::ALL.iter().enumerate() {
        assert_eq!(RelationshipKind::from_index(position as i32), *kind);
    }
}
