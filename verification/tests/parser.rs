use keyence_integration::models::{ScanRecord, Timestamp};
use keyence_integration::parser::{parse_line, ParseError, MIN_FIELDS};

const SAMPLE_1: &str =
    "301,2026,8,26,13,34,40,OK,OK,OK,'400111062103002382600605,MMO-26052028-001-P005";
const SAMPLE_2: &str =
    "325,2026,8,26,13,52,37,OK,OK,OK,'400111062103002382600597,MMO-26052028-001-P005";
const SAMPLE_3: &str =
    "327,2026,8,26,13,53,16,OK,OK,OK,'400111062103002382600598,MMO-26052028-001-P005";

#[test]
fn parses_sample_lines_from_design_slide() {
    for raw in [SAMPLE_1, SAMPLE_2, SAMPLE_3] {
        let rec = parse_line(raw).expect("sample line must parse");
        assert_eq!(rec.mo, "MMO-26052028-001-P005");
        assert!(rec.qr_serial.starts_with("400111062103"));
        assert!(!rec.qr_serial.starts_with('\''));
        assert_eq!(rec.judgements, vec!["OK", "OK", "OK"]);
        assert!(rec.overall_ok());
    }
}

#[test]
fn extracts_sequence_and_timestamp() {
    let rec = parse_line(SAMPLE_1).unwrap();
    assert_eq!(rec.sequence, 301);
    assert_eq!(rec.timestamp.to_string(), "2026-08-26 13:34:40");
}

#[test]
fn same_raw_line_produces_same_record_key_different_lines_differ() {
    let a = parse_line(SAMPLE_1).unwrap();
    let b = parse_line(SAMPLE_1).unwrap();
    assert_eq!(a.record_key, b.record_key);
    let c = parse_line(SAMPLE_2).unwrap();
    assert_ne!(a.record_key, c.record_key);
}

#[test]
fn handles_variable_judgement_count() {
    let raw = "10,2026,1,1,0,0,0,NG,'ABC123,MO-001";
    let rec = parse_line(raw).unwrap();
    assert_eq!(rec.judgements, vec!["NG"]);
    assert!(!rec.overall_ok());
}

#[test]
fn rejects_empty_line() {
    assert_eq!(parse_line(""), Err(ParseError::Empty));
    assert_eq!(parse_line("   "), Err(ParseError::Empty));
}

#[test]
fn rejects_too_few_fields() {
    let err = parse_line("1,2026,1,1,0,0,0").unwrap_err();
    assert!(matches!(err, ParseError::TooFewFields { .. }));
}

#[test]
fn rejects_invalid_timestamp() {
    let raw = "1,2026,13,40,0,0,0,OK,'ABC,MO-001";
    let err = parse_line(raw).unwrap_err();
    assert!(matches!(err, ParseError::InvalidTimestamp(_)));
}

#[test]
fn rejects_empty_qr_serial() {
    let raw = "1,2026,1,1,0,0,0,OK,',MO-001";
    let err = parse_line(raw).unwrap_err();
    assert_eq!(err, ParseError::EmptyQrSerial);
}

#[test]
fn rejects_invalid_sequence() {
    let raw = "abc,2026,1,1,0,0,0,OK,'X,MO-001";
    let err = parse_line(raw).unwrap_err();
    assert!(matches!(err, ParseError::InvalidSequence(_)));
}

#[test]
fn record_key_is_lower_hex_sha256_of_trimmed_line() {
    let rec = parse_line(SAMPLE_1).unwrap();
    assert_eq!(
        rec.record_key,
        "4165c3509c5bee02bdb7a029ab6acce4a6bd258a74cb2164a417deb143ef3a45"
    );
    let padded = format!("  \t{SAMPLE_1}\r\n");
    assert_eq!(parse_line(&padded).unwrap(), rec);
}

#[test]
fn too_few_fields_reports_counts() {
    assert_eq!(
        parse_line("1,2026,1,1,0,0,0"),
        Err(ParseError::TooFewFields { min: MIN_FIELDS, actual: 7 })
    );
    assert_eq!(MIN_FIELDS, 10);
    assert_eq!(
        parse_line("1,2026,1,1,0,0,0,'ABC,MO-001"),
        Err(ParseError::TooFewFields { min: 10, actual: 9 })
    );
}

#[test]
fn invalid_sequence_keeps_field_as_written() {
    assert_eq!(
        parse_line(" x1 ,2026,1,1,0,0,0,OK,'X,MO-001"),
        Err(ParseError::InvalidSequence("x1 ".to_string()))
    );
    assert_eq!(
        parse_line("99999999999999999999,2026,1,1,0,0,0,OK,'X,MO-001"),
        Err(ParseError::InvalidSequence("99999999999999999999".to_string()))
    );
}

#[test]
fn sequence_accepts_signs_and_surrounding_spaces() {
    assert_eq!(parse_line("+7,2026,1,1,0,0,0,OK,'X,MO").unwrap().sequence, 7);
    assert_eq!(parse_line("-7,2026,1,1,0,0,0,OK,'X,MO").unwrap().sequence, -7);
    assert_eq!(parse_line(" 42 ,2026,1,1,0,0,0,OK,'X,MO").unwrap().sequence, 42);
    assert_eq!(
        parse_line("-9223372036854775808,2026,1,1,0,0,0,OK,'X,MO").unwrap().sequence,
        i64::MIN
    );
    assert!(matches!(
        parse_line("+,2026,1,1,0,0,0,OK,'X,MO"),
        Err(ParseError::InvalidSequence(_))
    ));
    assert!(matches!(
        parse_line("1 2,2026,1,1,0,0,0,OK,'X,MO"),
        Err(ParseError::InvalidSequence(_))
    ));
}

#[test]
fn invalid_timestamp_keeps_fields_as_written() {
    assert_eq!(
        parse_line("1,2026, 13,40,0,0,0,OK,'ABC,MO-001"),
        Err(ParseError::InvalidTimestamp("2026, 13,40,0,0,0".to_string()))
    );
}

#[test]
fn leap_days_and_clock_limits() {
    assert!(parse_line("1,2024,2,29,0,0,0,OK,'A,M").is_ok());
    assert!(parse_line("1,2000,2,29,0,0,0,OK,'A,M").is_ok());
    assert!(matches!(
        parse_line("1,2023,2,29,0,0,0,OK,'A,M"),
        Err(ParseError::InvalidTimestamp(_))
    ));
    assert!(matches!(
        parse_line("1,1900,2,29,0,0,0,OK,'A,M"),
        Err(ParseError::InvalidTimestamp(_))
    ));
    assert!(parse_line("1,2026,4,30,23,59,59,OK,'A,M").is_ok());
    assert!(matches!(
        parse_line("1,2026,4,31,0,0,0,OK,'A,M"),
        Err(ParseError::InvalidTimestamp(_))
    ));
    assert!(matches!(
        parse_line("1,2026,1,1,24,0,0,OK,'A,M"),
        Err(ParseError::InvalidTimestamp(_))
    ));
    assert!(matches!(
        parse_line("1,2026,1,1,0,60,0,OK,'A,M"),
        Err(ParseError::InvalidTimestamp(_))
    ));
    assert!(matches!(
        parse_line("1,2026,1,1,0,0,60,OK,'A,M"),
        Err(ParseError::InvalidTimestamp(_))
    ));
    assert!(matches!(
        parse_line("1,2026,-1,1,0,0,0,OK,'A,M"),
        Err(ParseError::InvalidTimestamp(_))
    ));
    assert!(matches!(
        parse_line("1,262143,1,1,0,0,0,OK,'A,M"),
        Err(ParseError::InvalidTimestamp(_))
    ));
    assert!(parse_line("1,262142,1,1,0,0,0,OK,'A,M").is_ok());
    assert!(parse_line("1,-262143,1,1,0,0,0,OK,'A,M").is_ok());
}

#[test]
fn rejects_empty_mo() {
    assert_eq!(
        parse_line("1,2026,1,1,0,0,0,OK,'ABC,  "),
        Err(ParseError::EmptyMo)
    );
}

#[test]
fn qr_serial_loses_all_leading_quotes_and_spaces() {
    let rec = parse_line("1,2026,1,1,0,0,0,OK,  ''X'Y ,MO").unwrap();
    assert_eq!(rec.qr_serial, "X'Y");
    assert_eq!(
        parse_line("1,2026,1,1,0,0,0,OK, ''' ,MO"),
        Err(ParseError::EmptyQrSerial)
    );
}

#[test]
fn judgements_are_trimmed_and_case_insensitive() {
    let rec = parse_line("1,2026,1,1,0,0,0, ok ,Ok,oK,'X,MO").unwrap();
    assert_eq!(rec.judgements, vec!["ok", "Ok", "oK"]);
    assert!(rec.overall_ok());
    let rec = parse_line("1,2026,1,1,0,0,0,OK,,'X,MO").unwrap();
    assert_eq!(rec.judgements, vec!["OK", ""]);
    assert!(!rec.overall_ok());
}

#[test]
fn overall_ok_needs_a_verdict() {
    let rec = ScanRecord {
        sequence: 1,
        timestamp: Timestamp { year: 2026, month: 1, day: 1, hour: 0, minute: 0, second: 0 },
        judgements: vec![],
        qr_serial: "X".to_string(),
        mo: "M".to_string(),
        record_key: String::new(),
    };
    assert!(!rec.overall_ok());
    let rec = ScanRecord { judgements: vec!["OKK".to_string()], ..rec };
    assert!(!rec.overall_ok());
}

#[test]
fn timestamp_text_pads_and_signs() {
    let t = Timestamp { year: 7, month: 3, day: 4, hour: 5, minute: 6, second: 7 };
    assert_eq!(t.to_string(), "0007-03-04 05:06:07");
    let t = Timestamp { year: 12345, month: 12, day: 31, hour: 23, minute: 59, second: 59 };
    assert_eq!(t.to_string(), "+12345-12-31 23:59:59");
    let t = Timestamp { year: -5, month: 1, day: 1, hour: 0, minute: 0, second: 0 };
    assert_eq!(t.to_string(), "-0005-01-01 00:00:00");
}

#[test]
fn error_messages() {
    assert_eq!(ParseError::Empty.message(), "dòng rỗng");
    assert_eq!(
        ParseError::TooFewFields { min: 10, actual: 7 }.message(),
        "thiếu field (cần tối thiểu 10, có 7)"
    );
    assert_eq!(
        ParseError::InvalidSequence("abc".to_string()).message(),
        "sequence không phải số nguyên: abc"
    );
    assert_eq!(
        ParseError::InvalidTimestamp("2026,13,40,0,0,0".to_string()).message(),
        "timestamp không hợp lệ: 2026,13,40,0,0,0"
    );
    assert_eq!(ParseError::EmptyQrSerial.message(), "QR serial rỗng sau khi bỏ dấu nháy");
    assert_eq!(ParseError::EmptyMo.message(), "MO code rỗng");
}
