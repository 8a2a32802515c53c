use lakesoul_io::expr::Expression;
use lakesoul_io::reader::{PullOutcome, ReaderError, ReaderSession, ReaderState, ScanConfig};
use lakesoul_io::schema::{FieldType, Schema, SchemaField};

fn schema() -> Schema {
    Schema {
        fields: vec![
            SchemaField { name: "id".to_string(), data_type: FieldType::Int64 },
            SchemaField { name: "name".to_string(), data_type: FieldType::Utf8 },
        ],
    }
}

#[test]
fn empty_file_list_is_rejected_before_start() {
    let config = ScanConfig::new(schema());
    assert_eq!(config.check_startable(), Err(ReaderError::NoFiles));
}

#[test]
fn nonempty_file_list_may_start() {
    let mut config = ScanConfig::new(schema());
    config.files.push("/path/to/file.parquet".to_string());
    assert_eq!(config.check_startable(), Ok(()));
}

#[test]
fn configured_filters_compile_in_order() {
    let mut config = ScanConfig::new(schema());
    config.filter_strs.push("gt(id, 3)".to_string());
    config.filter_strs.push("eq(name, null)".to_string());
    let filters = config.compile_filters().unwrap();
    assert_eq!(filters.len(), 2);
    assert_eq!(
        filters[1],
        Expression::IsNull(Box::new(Expression::Column("name".to_string())))
    );
}

#[test]
fn malformed_filter_string_fails_compilation() {
    let mut config = ScanConfig::new(schema());
    config.filter_strs.push("gt(id, 3".to_string());
    assert!(config.compile_filters().is_err());
}

#[test]
fn session_lifecycle_start_pull_exhaust() {
    let mut session = ReaderSession::new();
    assert_eq!(session.state(), ReaderState::Unstarted);
    assert!(session.get_schema().is_none());

    session.on_start(Ok(schema())).unwrap();
    assert_eq!(session.state(), ReaderState::Running);
    assert_eq!(session.get_schema(), Some(&schema()));

    session.on_pull(&PullOutcome::Batch(256));
    assert_eq!(session.state(), ReaderState::Running);
    assert!(session.can_pull());

    session.on_pull(&PullOutcome::Finished);
    assert_eq!(session.state(), ReaderState::Exhausted);
    assert!(!session.can_pull());
    // the schema resolved at start is kept after exhaustion
    assert_eq!(session.get_schema(), Some(&schema()));
}

#[test]
fn failed_start_is_terminal() {
    let mut session = ReaderSession::new();
    let r = session.on_start(Err(ReaderError::Scan));
    assert_eq!(r, Err(ReaderError::Scan));
    assert_eq!(session.state(), ReaderState::Failed);
    assert!(session.get_schema().is_none());
    assert!(!session.can_pull());
}

#[test]
fn scan_error_fails_the_reader() {
    let mut session = ReaderSession::new();
    session.on_start(Ok(schema())).unwrap();
    session.on_pull(&PullOutcome::Error);
    assert_eq!(session.state(), ReaderState::Failed);
    assert!(!session.can_pull());
}
