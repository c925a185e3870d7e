use keyence_integration::config::{default_watch_folder, watch_folder_for, AppConfig};
use keyence_integration::db::{create_table_statement, insert_statement};
use keyence_integration::poll::{plan_line, settle_insert, LineStep, StatusSnapshot};
use keyence_integration::parser::ParseError;
use keyence_integration::state_store::ReadState;

const LINE_1: &str =
    "301,2026,8,26,13,34,40,OK,OK,OK,'400111062103002382600605,MMO-26052028-001-P005";

#[test]
fn default_config_values() {
    let cfg = AppConfig::default();
    assert_eq!(cfg.staging_table, "keyence_scan_log");
    assert_eq!(cfg.poll_interval_secs, 10);
    assert_eq!(cfg.postgres_conn_string, "");
    assert!(cfg.watch_folder == "/var/log/keyence" || cfg.watch_folder == "C:\\LogsToWatch");
    assert_eq!(cfg.watch_folder, default_watch_folder());
    assert!(!cfg.has_database());
}

#[test]
fn poll_interval_is_at_least_one_second() {
    let mut cfg = AppConfig::default();
    cfg.poll_interval_secs = 0;
    assert_eq!(cfg.effective_poll_interval(), 1);
    cfg.poll_interval_secs = 30;
    assert_eq!(cfg.effective_poll_interval(), 30);
}

#[test]
fn blank_connection_string_means_no_database() {
    let mut cfg = AppConfig::default();
    cfg.postgres_conn_string = " \t ".to_string();
    assert!(!cfg.has_database());
    cfg.postgres_conn_string = "host=db user=u password=p dbname=mes".to_string();
    assert!(cfg.has_database());
}

#[test]
fn statements_name_the_table() {
    let create = create_table_statement("scans");
    assert!(create.starts_with("CREATE TABLE IF NOT EXISTS scans (\n            id BIGSERIAL"));
    assert!(create.ends_with("DEFAULT now()\n        )"));
    let insert = insert_statement("scans");
    assert!(insert.starts_with("INSERT INTO scans\n"));
    assert!(insert.ends_with("ON CONFLICT (record_key) DO NOTHING"));
}

#[test]
fn blank_line_is_committed() {
    let mut state = ReadState::default();
    let step = plan_line(&mut state, "/f", "  \r", 12);
    assert!(matches!(step, LineStep::Committed));
    assert_eq!(state.offset_for("/f"), 12);
}

#[test]
fn malformed_line_is_committed_and_reported() {
    let mut state = ReadState::default();
    let step = plan_line(&mut state, "/f", "garbage", 8);
    assert!(matches!(
        step,
        LineStep::Rejected(ParseError::TooFewFields { min: 10, actual: 1 })
    ));
    assert_eq!(state.offset_for("/f"), 8);
    let mut status = StatusSnapshot::default();
    status.note_parse_error("bad line".to_string());
    assert_eq!(status.last_parse_error.as_deref(), Some("bad line"));
}

#[test]
fn record_waits_for_store_outcome() {
    let mut state = ReadState::default();
    let mut status = StatusSnapshot::default();
    let step = plan_line(&mut state, "/f", LINE_1, 81);
    let record = match step {
        LineStep::Insert(r) => r,
        other => panic!("expected a record, got {other:?}"),
    };
    assert_eq!(state.offset_for("/f"), 0);

    let go_on = settle_insert(&mut state, &mut status, "/f", 81, &record, Err("down".to_string()));
    assert!(!go_on);
    assert_eq!(state.offset_for("/f"), 0);
    assert_eq!(status.last_db_error.as_deref(), Some("down"));
    assert!(!status.db_connected);
    assert_eq!(status.records_sent_total, 0);

    let go_on = settle_insert(&mut state, &mut status, "/f", 81, &record, Ok(()));
    assert!(go_on);
    assert_eq!(state.offset_for("/f"), 81);
    assert_eq!(status.records_sent_total, 1);
    assert_eq!(status.last_mo.as_deref(), Some("MMO-26052028-001-P005"));
    assert_eq!(status.last_db_error, None);
    assert!(status.db_connected);
}

#[test]
fn status_notes() {
    let mut status = StatusSnapshot::default();
    status.note_db_error("refused".to_string());
    status.note_poll_finished("2026-01-01T00:00:00+07:00".to_string());
    assert_eq!(status.last_db_error.as_deref(), Some("refused"));
    assert_eq!(status.last_poll_at.as_deref(), Some("2026-01-01T00:00:00+07:00"));
    assert!(!status.db_connected);
}

#[test]
fn watch_folder_follows_path_separator() {
    assert_eq!(watch_folder_for('\\'), "C:\\LogsToWatch");
    assert_eq!(watch_folder_for('/'), "/var/log/keyence");
    assert_eq!(default_watch_folder(), watch_folder_for(std::path::MAIN_SEPARATOR));
}

#[test]
fn read_error_is_noted_with_path() {
    let mut status = StatusSnapshot::default();
    status.note_read_error("/logs/a.csv", "permission denied");
    assert_eq!(
        status.last_parse_error.as_deref(),
        Some("/logs/a.csv: permission denied")
    );
    assert_eq!(status.records_sent_total, 0);
}
