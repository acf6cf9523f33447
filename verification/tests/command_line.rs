use yamldb::catalog::{
    list_tables, resolve_table_path, sort_tables, table_name_invalid, webui_list_tables, webui_resolve_table_path,
    webui_write_table_path,
    EntryFacts, ResolveError, SourceFacts, SourceKind, TableLocation,
};
use yamldb::cli::{
    command_allows_new_table, command_stderr, parse_fields, parse_value, resolve_cli_table_path,
    webui_delete_record, webui_is_yaml_path, webui_table_name, yq_exe_name, CliPathError,
    Commands, FieldError, build_query, import_kind, to_ascii_lowercase, ImportKind, QueryBuild,
};
use yamldb::paths::{is_yaml_path, table_name, temp_file_name};
use yamldb::{QueryOp, Record, Value, YamlDb};

fn read_float(s: &str) -> Option<u64> {
    s.parse::<f64>().ok().map(f64::to_bits)
}

fn entry(path: &str, is_file: bool) -> EntryFacts {
    EntryFacts { path: path.to_string(), is_file }
}

fn dir(entries: Vec<EntryFacts>) -> SourceFacts {
    SourceFacts {
        path: "tables".to_string(),
        kind: SourceKind::Dir,
        yaml_file: false,
        yml_file: false,
        entries: Some(entries),
    }
}

#[test]
fn executable_names() {
    assert_eq!(yq_exe_name(true), "yq.exe");
    assert_eq!(yq_exe_name(false), "yq");
}

#[test]
fn error_output_of_yq() {
    assert_eq!(command_stderr(b"  bad input\n".to_vec()), "bad input");
    assert_eq!(command_stderr(b" \n".to_vec()), "yq command failed");
}

#[test]
fn commands_that_create_tables() {
    assert!(command_allows_new_table(&Commands::Create { id: "a".into(), fields: vec![] }));
    assert!(command_allows_new_table(&Commands::Import { input: "x.json".into() }));
    assert!(command_allows_new_table(&Commands::Clear { force: true }));
    assert!(!command_allows_new_table(&Commands::Clear { force: false }));
    assert!(!command_allows_new_table(&Commands::Count));
}

#[test]
fn field_values() {
    assert_eq!(parse_value("30", &read_float).as_i64(), Some(30));
    assert_eq!(parse_value("TRUE", &read_float).as_bool(), Some(true));
    assert_eq!(parse_value("false", &read_float).as_bool(), Some(false));
    assert_eq!(parse_value("Alice", &read_float).as_str(), Some("Alice"));
    match parse_value("1.5", &read_float) {
        Value::Number(n) => assert_eq!(n.f64_bits(), 1.5f64.to_bits()),
        _ => panic!("expected a number"),
    }
}

#[test]
fn fields_from_the_command_line() {
    let fields = vec!["name = Alice".to_string(), "age=30".to_string(), "name=Bob".to_string()];
    let data = match parse_fields(&fields, &read_float) {
        Ok(d) => d,
        Err(_) => panic!("expected fields"),
    };
    let mut r = Record::new("x");
    r.data = data;
    assert_eq!(r.data.len(), 2);
    assert_eq!(r.get_str("name"), Some("Bob"));
    assert_eq!(r.get_i64("age"), Some(30));
    let bad = vec!["age=1".to_string(), "oops".to_string()];
    assert!(matches!(parse_fields(&bad, &read_float), Err(FieldError::NoEquals(f)) if f == "oops"));
    let empty = vec![" =1".to_string()];
    assert!(matches!(parse_fields(&empty, &read_float), Err(FieldError::EmptyKey(_))));
}

#[test]
fn yaml_paths_and_stems() {
    assert!(is_yaml_path("dir/users.YAML"));
    assert!(webui_is_yaml_path("teams.yml"));
    assert!(!is_yaml_path("notes.txt"));
    assert_eq!(table_name("dir/users.yaml"), Some("users".to_string()));
    assert_eq!(webui_table_name("teams.yml"), Some("teams".to_string()));
}

#[test]
fn tables_of_a_directory() {
    let entries = vec![
        entry("d/Zeta.yaml", true),
        entry("d/alpha.yml", true),
        entry("d/notes.txt", true),
        entry("d/beta.yaml", false),
    ];
    assert_eq!(list_tables(SourceKind::Dir, entries), vec!["alpha".to_string(), "Zeta".to_string()]);
    assert_eq!(list_tables(SourceKind::File, vec![]), vec!["data".to_string()]);
    assert!(list_tables(SourceKind::Missing, vec![]).is_empty());
    assert_eq!(webui_list_tables(SourceKind::Missing, vec![]), vec!["data".to_string()]);
    assert_eq!(
        sort_tables(vec!["b".to_string(), "A".to_string(), "a".to_string()]),
        vec!["A".to_string(), "a".to_string(), "b".to_string()]
    );
}

#[test]
fn resolving_tables() {
    let file = SourceFacts {
        path: "dir/people.yaml".to_string(),
        kind: SourceKind::File,
        yaml_file: false,
        yml_file: false,
        entries: None,
    };
    assert!(matches!(resolve_table_path(&file, "DATA"), Some(TableLocation::Source)));
    assert!(matches!(resolve_table_path(&file, "People"), Some(TableLocation::Source)));
    assert!(resolve_table_path(&file, "other").is_none());
    let mut d = dir(vec![entry("tables/Users.yml", true)]);
    assert!(matches!(resolve_table_path(&d, "users"), Some(TableLocation::Entry(0))));
    d.yaml_file = true;
    assert!(matches!(resolve_table_path(&d, "users"), Some(TableLocation::Joined(n)) if n == "users.yaml"));
    let d2 = dir(vec![entry("tables/Users.yml", false)]);
    assert!(resolve_table_path(&d2, "users").is_none());
    let d3 = dir(vec![entry("tables/Users.yml", false), entry("tables/USERS.yaml", true)]);
    assert!(matches!(resolve_table_path(&d3, "users"), Some(TableLocation::Entry(1))));
    assert!(matches!(webui_resolve_table_path(&d2, "users"), Err(ResolveError::UnknownTable)));
    let missing = SourceFacts { kind: SourceKind::Missing, ..file };
    assert!(matches!(webui_resolve_table_path(&missing, "data"), Ok(TableLocation::Source)));
}

#[test]
fn command_line_tables() {
    let d = dir(vec![]);
    assert!(matches!(resolve_cli_table_path(&d, "../x", true), Err(CliPathError::InvalidName)));
    assert!(matches!(resolve_cli_table_path(&d, "  ", true), Err(CliPathError::InvalidName)));
    assert!(matches!(resolve_cli_table_path(&d, "..", true), Err(CliPathError::InvalidName)));
    assert!(matches!(resolve_cli_table_path(&d, "new", true), Ok(TableLocation::Joined(n)) if n == "new.yaml"));
    assert!(matches!(resolve_cli_table_path(&d, "new", false), Err(CliPathError::UnknownTableInDir)));
    let other = SourceFacts { kind: SourceKind::Other, ..dir(vec![]) };
    assert!(matches!(resolve_cli_table_path(&other, "t", true), Err(CliPathError::NotYamlSource)));
}

#[test]
fn deleting_through_the_web_ui() {
    let mut db = YamlDb::memory();
    db.create(Record::new("u1")).unwrap();
    assert!(webui_delete_record(&mut db, "u1").is_ok());
    assert!(webui_delete_record(&mut db, "u1").is_err());
    assert_eq!(db.count(), 0);
}

#[test]
fn query_from_the_command_line() {
    match build_query("age", "30", None, &read_float) {
        QueryBuild::Query(QueryOp::Eq(k, v)) => {
            assert_eq!(k, "age");
            assert_eq!(v.as_i64(), Some(30));
        }
        _ => panic!("expected an equality"),
    }
    assert!(matches!(build_query("age", "30", Some("gte"), &read_float), QueryBuild::Query(QueryOp::Gte(..))));
    assert!(matches!(build_query("age", "30", Some("lt"), &read_float), QueryBuild::Query(QueryOp::Lt(..))));
    match build_query("name", "Al", Some("contains"), &read_float) {
        QueryBuild::Query(QueryOp::Contains(k, v)) => {
            assert_eq!(k, "name");
            assert_eq!(v, "Al");
        }
        _ => panic!("expected a substring query"),
    }
    match build_query("age", "30", Some("between"), &read_float) {
        QueryBuild::UnknownOperator(o) => assert_eq!(o, "between"),
        _ => panic!("expected an unknown operator"),
    }
}

#[test]
fn import_formats() {
    assert!(matches!(import_kind(Some("JSON")), ImportKind::Json));
    assert!(matches!(import_kind(Some("yml")), ImportKind::Yaml));
    assert!(matches!(import_kind(Some("Yaml")), ImportKind::Yaml));
    match import_kind(Some("CSV")) {
        ImportKind::Unsupported(e) => assert_eq!(e, "csv"),
        _ => panic!("expected an unsupported format"),
    }
    match import_kind(None) {
        ImportKind::Unsupported(e) => assert_eq!(e, ""),
        _ => panic!("expected an unsupported format"),
    }
    assert_eq!(to_ascii_lowercase("AbC-Ä"), "abc-Ä");
}

#[test]
fn temporary_file_names() {
    assert_eq!(temp_file_name(Some("users.yaml"), 42, 7), ".users.yaml.42.7.tmp");
    assert_eq!(temp_file_name(None, 1, 0), ".yamldb.1.0.tmp");
}

#[test]
fn table_names_stay_inside_the_directory() {
    let mut d = dir(vec![entry("tables/users.yaml", true)]);
    d.yaml_file = true;
    assert!(resolve_table_path(&d, "../other").is_none());
    assert!(resolve_table_path(&d, "sub/users").is_none());
    assert!(resolve_table_path(&d, "sub\\users").is_none());
    assert!(resolve_table_path(&d, "..").is_none());
    assert!(matches!(webui_resolve_table_path(&d, "../other"), Err(ResolveError::UnknownTable)));
    assert!(matches!(webui_write_table_path(&d, "../other"), Err(ResolveError::UnknownTable)));
    assert!(table_name_invalid(" "));
    assert!(table_name_invalid("a/b"));
    assert!(!table_name_invalid("users"));
}

#[test]
fn the_web_ui_creates_missing_tables() {
    let d = dir(vec![entry("tables/users.yaml", true)]);
    assert!(matches!(webui_resolve_table_path(&d, "teams"), Err(ResolveError::UnknownTable)));
    assert!(matches!(webui_write_table_path(&d, "teams"), Ok(TableLocation::Joined(n)) if n == "teams.yaml"));
    assert!(matches!(webui_write_table_path(&d, "USERS"), Ok(TableLocation::Entry(0))));
    let file = SourceFacts { path: "people.yaml".to_string(), kind: SourceKind::File, ..dir(vec![]) };
    assert!(matches!(webui_write_table_path(&file, "teams"), Err(ResolveError::UnknownTable)));
}
