use itgla::domain::ServerRecord;
use itgla::sorting::Order;
use itgla::table::{
    available_tags, filter_records, first_port, ip_compare, matches_filters, sort_records,
    table_view, text_compare, IpKey, TableState,
};

fn server(tags: &[&str], ip_address: &str, ports: &str, custom: &[&str]) -> ServerRecord {
    ServerRecord {
        id: 1,
        tags: tags.iter().map(|tag| (*tag).into()).collect(),
        ip_address: ip_address.into(),
        ports: ports.into(),
        custom_values: custom.iter().map(|value| (*value).into()).collect(),
    }
}

fn v4(a: u8, b: u8, c: u8, d: u8) -> Option<IpKey> {
    Some(IpKey { family: 4, value: u128::from(u32::from_be_bytes([a, b, c, d])) })
}

#[test]
fn combines_exact_tag_filter_with_free_text_search() {
    let record = server(
        &["production", "api"],
        "203.0.113.10",
        "22, 443",
        &["Platform"],
    );
    assert!(matches_filters(
        &record,
        &TableState {
            query: "platform".into(),
            tag: "PRODUCTION".into(),
            sort_mode: 0,
            show_hidden: false,
        }
    ));
    assert!(!matches_filters(
        &record,
        &TableState {
            query: "443".into(),
            tag: "database".into(),
            sort_mode: 0,
            show_hidden: false,
        }
    ));
}

#[test]
fn default_sort_is_ascii_case_insensitive_and_other_modes_are_numeric() {
    let mut records = vec![
        server(&["beta"], "10.0.0.10", "443", &["west"]),
        server(&["Alpha"], "10.0.0.2", "22", &["east"]),
    ];
    // the parsed addresses of the two records, in the same order
    let mut keys = vec![v4(10, 0, 0, 10), v4(10, 0, 0, 2)];
    sort_records(&mut records, &mut keys, 0);
    assert_eq!(records[0].tags, ["Alpha"]);
    sort_records(&mut records, &mut keys, 2);
    assert_eq!(records[0].ip_address, "10.0.0.2");
    sort_records(&mut records, &mut keys, 5);
    assert_eq!(records[0].ports, "443");
    sort_records(&mut records, &mut keys, 8);
    assert_eq!(records[0].custom_values, ["east"]);
}

#[test]
fn sorting_keeps_keys_with_their_records_and_breaks_ties_by_id() {
    let mut records = vec![
        ServerRecord { id: 3, ..server(&["same"], "b", "1", &[]) },
        ServerRecord { id: 1, ..server(&["SAME"], "a", "1", &[]) },
        ServerRecord { id: 2, ..server(&["zzz"], "c", "1", &[]) },
    ];
    let mut keys = vec![None, v4(1, 1, 1, 1), None];
    sort_records(&mut records, &mut keys, 0);
    let ids: Vec<i64> = records.iter().map(|r| r.id).collect();
    assert_eq!(ids, [1, 3, 2]);
    assert_eq!(keys, vec![v4(1, 1, 1, 1), None, None]);
    sort_records(&mut records, &mut keys, 6);
    let ids: Vec<i64> = records.iter().map(|r| r.id).collect();
    assert_eq!(ids, [3, 2, 1]);
    sort_records(&mut records, &mut keys, 7);
    let ids: Vec<i64> = records.iter().map(|r| r.id).collect();
    assert_eq!(ids, [1, 2, 3]);
}

#[test]
fn custom_column_modes_sort_missing_values_first() {
    let mut records = vec![
        ServerRecord { id: 1, ..server(&["a"], "x", "1", &["b", "z"]) },
        ServerRecord { id: 2, ..server(&["a"], "x", "1", &["a"]) },
    ];
    let mut keys = vec![None, None];
    // mode 10: second custom column, ascending; record 2 has none (empty text)
    sort_records(&mut records, &mut keys, 10);
    assert_eq!(records[0].id, 2);
    // mode 11: second custom column, descending
    sort_records(&mut records, &mut keys, 11);
    assert_eq!(records[0].id, 1);
}

#[test]
fn address_comparison_prefers_parsed_addresses() {
    assert_eq!(ip_compare("10.0.0.2", v4(10, 0, 0, 2), "10.0.0.10", v4(10, 0, 0, 10)), Order::Less);
    assert_eq!(ip_compare("10.0.0.2", v4(10, 0, 0, 2), "host", None), Order::Less);
    assert_eq!(ip_compare("zeta", None, "Alpha", None), Order::Greater);
    let v6 = Some(IpKey { family: 6, value: 1 });
    assert_eq!(ip_compare("::1", v6, "255.255.255.255", v4(255, 255, 255, 255)), Order::Greater);
}

#[test]
fn text_comparison_folds_ascii_case_only() {
    assert_eq!(text_compare("alpha", "ALPHA"), Order::Equal);
    assert_eq!(text_compare("Alpha", "beta"), Order::Less);
    assert_eq!(text_compare("b", "ab"), Order::Greater);
    assert_eq!(text_compare("É", "é"), Order::Less);
    assert_eq!(text_compare("", "a"), Order::Less);
}

#[test]
fn first_port_reads_the_leading_number() {
    assert_eq!(first_port(" 443, 22"), 443);
    assert_eq!(first_port("+8080"), 8080);
    assert_eq!(first_port(""), 65535);
    assert_eq!(first_port("http, 80"), 65535);
    assert_eq!(first_port("0"), 0);
}

#[test]
fn table_state_starts_empty() {
    let state = TableState::default();
    assert_eq!(state.query, "");
    assert_eq!(state.tag, "");
    assert_eq!(state.sort_mode, 0);
    assert!(!state.show_hidden);
    let record = server(&[], "10.0.0.1", "22", &[]);
    assert!(matches_filters(&record, &state));
}

#[test]
fn filters_look_at_addresses_ports_and_trim_the_tag() {
    let records = vec![
        server(&["db"], "10.0.0.1", "5432", &[]),
        server(&["web"], "10.0.0.2", "443", &["Front"]),
    ];
    let state = TableState { query: " 5432 ".into(), tag: String::new(), sort_mode: 0, show_hidden: false };
    let shown = filter_records(&records, &state);
    assert_eq!(shown.len(), 1);
    assert_eq!(shown[0].tags, ["db"]);
    let state = TableState { query: "FRONT".into(), tag: "  WEB ".into(), sort_mode: 0, show_hidden: false };
    assert_eq!(filter_records(&records, &state).len(), 1);
    let state = TableState { query: "".into(), tag: "missing".into(), sort_mode: 0, show_hidden: false };
    assert!(filter_records(&records, &state).is_empty());
}

#[test]
fn available_tags_are_sorted_and_collapsed() {
    let records = vec![
        server(&["beta", "Alpha"], "", "", &[]),
        server(&["alpha", "Gamma", "BETA"], "", "", &[]),
    ];
    assert_eq!(available_tags(&records), vec!["Alpha", "beta", "Gamma"]);
    assert!(available_tags(&Vec::new()).is_empty());
}

#[test]
fn table_view_sorts_filters_and_lists_tags_of_all_records() {
    let mut first = server(&["web", "Prod"], "10.0.0.9", "443", &[]);
    first.id = 1;
    let mut second = server(&["db", "prod"], "10.0.0.2", "5432", &[]);
    second.id = 2;
    let mut third = server(&["web"], "10.0.0.5", "80", &[]);
    third.id = 3;
    let keys = vec![v4(10, 0, 0, 9), v4(10, 0, 0, 2), v4(10, 0, 0, 5)];
    let state = TableState { query: "".into(), tag: "web".into(), sort_mode: 2, show_hidden: false };
    let view = table_view(vec![first, second, third], keys, &state);
    assert_eq!(view.tags, ["db", "Prod", "web"]);
    let ids: Vec<i64> = view.rows.iter().map(|row| row.id).collect();
    assert_eq!(ids, [3, 1]);
    let everything = TableState { query: "".into(), tag: "".into(), sort_mode: 3, show_hidden: false };
    let view = table_view(
        vec![server(&["a"], "10.0.0.1", "1", &[]), server(&["b"], "10.0.0.3", "1", &[])],
        vec![v4(10, 0, 0, 1), v4(10, 0, 0, 3)],
        &everything,
    );
    assert_eq!(view.rows[0].ip_address, "10.0.0.3");
    assert_eq!(view.rows.len(), 2);
}
