use rustpulse::ident::parse_uuid;
use rustpulse::json::{parse_json, parse_value, JsonValue};
use rustpulse::record::{parse_record, serialize_record, Telemetry};
use rustpulse::timestamp::{parse_ts, Timestamp};

fn sample_record() -> Telemetry {
    Telemetry {
        source_id: 0x0000_0000_0000_0000_0000_0000_0000_0001,
        server_id: 0x0000_0000_0000_0000_0000_0000_0000_0002,
        timestamp: Timestamp {
            year: 2026,
            month: 2,
            day: 18,
            hour: 0,
            minute: 0,
            second: 0,
            nanos: 0,
        },
        cpu: Some("1.0".to_string()),
        memory: None,
        temperature: None,
        extras: vec![
            ("note".to_string(), JsonValue::Str("ground station A".to_string())),
            ("passes".to_string(), JsonValue::Num("3".to_string())),
        ],
    }
}

#[test]
fn record_round_trips_through_its_line() {
    let rec = sample_record();
    let line = serialize_record(&rec);
    let back = parse_record(&line).expect("a stored line parses back");
    assert_eq!(back, rec);
}

#[test]
fn record_line_is_one_json_object() {
    let rec = sample_record();
    let line = serialize_record(&rec);
    assert!(line.starts_with('{'));
    assert!(line.ends_with('}'));
    assert!(!line.contains('\n'));
    assert!(line.contains("\"source_id\":\"00000000-0000-0000-0000-000000000001\""));
    assert!(line.contains("\"timestamp\":\"2026-02-18T00:00:00Z\""));
    assert!(line.contains("\"cpu\":1.0"));
    assert!(line.contains("\"memory\":null"));
}

#[test]
fn record_parses_from_handwritten_payload() {
    let body = r#"{"source_id":"00000000-0000-0000-0000-000000000001","server_id":"00000000-0000-0000-0000-000000000002","timestamp":"2026-02-18T00:00:00Z","cpu":1.0,"memory":null,"temperature":null,"extras":{}}"#;
    let rec = parse_record(body).expect("the payload parses");
    assert_eq!(rec.source_id, 1);
    assert_eq!(rec.server_id, 2);
    assert_eq!(rec.cpu.as_deref(), Some("1.0"));
    assert_eq!(rec.memory, None);
    assert!(rec.extras.is_empty());
}

#[test]
fn record_accepts_missing_optional_metrics_and_extras() {
    let body = r#"{"source_id":"00000000-0000-0000-0000-000000000001","server_id":"00000000-0000-0000-0000-000000000002","timestamp":"2026-02-18T00:00:00Z"}"#;
    let rec = parse_record(body).expect("optional fields may be absent");
    assert_eq!(rec.cpu, None);
    assert!(rec.extras.is_empty());
}

#[test]
fn record_rejects_missing_source_id() {
    let body = r#"{"server_id":"00000000-0000-0000-0000-000000000002","timestamp":"2026-02-18T00:00:00Z","cpu":1.0,"memory":null,"temperature":null,"extras":{}}"#;
    assert!(parse_record(body).is_none());
}

#[test]
fn record_rejects_non_number_metric() {
    let body = r#"{"source_id":"00000000-0000-0000-0000-000000000001","server_id":"00000000-0000-0000-0000-000000000002","timestamp":"2026-02-18T00:00:00Z","cpu":"fast"}"#;
    assert!(parse_record(body).is_none());
}

#[test]
fn timestamp_parses_utc_and_offsets() {
    let t = parse_ts("2026-02-18T00:00:00Z").expect("plain UTC parses");
    assert_eq!((t.year, t.month, t.day, t.hour, t.minute, t.second), (2026, 2, 18, 0, 0, 0));

    // An eastern offset before midnight lands on the previous day in UTC.
    let t = parse_ts("2026-02-18T01:30:00+02:00").expect("offset parses");
    assert_eq!((t.year, t.month, t.day, t.hour, t.minute), (2026, 2, 17, 23, 30));

    // A western offset can carry into the next day.
    let t = parse_ts("2026-02-17T23:30:00-01:00").expect("offset parses");
    assert_eq!((t.year, t.month, t.day, t.hour, t.minute), (2026, 2, 18, 0, 30));

    let t = parse_ts("2026-02-18T00:00:00.000000061Z").expect("fraction parses");
    assert_eq!(t.nanos, 61);
    let t = parse_ts("2026-02-18T00:00:00.5Z").expect("short fraction parses");
    assert_eq!(t.nanos, 500_000_000);
}

#[test]
fn timestamp_rejects_impossible_dates() {
    assert!(parse_ts("2026-02-30T00:00:00Z").is_none());
    assert!(parse_ts("2026-13-01T00:00:00Z").is_none());
    assert!(parse_ts("2026-02-18T24:00:00Z").is_none());
    assert!(parse_ts("2026-02-18T00:00:60Z").is_none());
    assert!(parse_ts("2026-02-18 00:00:00Z").is_none());
    assert!(parse_ts("2026-02-18T00:00:00").is_none());
}

#[test]
fn leap_day_only_in_leap_years() {
    assert!(parse_ts("2024-02-29T12:00:00Z").is_some());
    assert!(parse_ts("2026-02-29T12:00:00Z").is_none());
    assert!(parse_ts("2000-02-29T12:00:00Z").is_some());
    assert!(parse_ts("1900-02-28T12:00:00Z").is_some());
}

#[test]
fn uuid_parses_all_four_forms() {
    let v = 0x550e_8400_e29b_41d4_a716_4466_5544_0000u128;
    assert_eq!(parse_uuid("550e8400-e29b-41d4-a716-446655440000"), Some(v));
    assert_eq!(parse_uuid("550E8400-E29B-41D4-A716-446655440000"), Some(v));
    assert_eq!(parse_uuid("550e8400e29b41d4a716446655440000"), Some(v));
    assert_eq!(parse_uuid("{550e8400-e29b-41d4-a716-446655440000}"), Some(v));
    assert_eq!(parse_uuid("urn:uuid:550e8400-e29b-41d4-a716-446655440000"), Some(v));
    assert_eq!(parse_uuid("URN:UUID:550e8400-e29b-41d4-a716-446655440000"), Some(v));
}

#[test]
fn uuid_rejects_other_shapes() {
    assert!(parse_uuid("550e8400-e29b-41d4-a716-44665544000").is_none());
    assert!(parse_uuid("550e8400-e29b-41d4-a716+446655440000").is_none());
    assert!(parse_uuid("zz0e8400-e29b-41d4-a716-446655440000").is_none());
    assert!(parse_uuid("").is_none());
}

#[test]
fn json_values_parse_and_skip_whitespace() {
    let v = parse_json(" { \"a\" : [ 1 , true , null , \"x\" ] } ").expect("parses");
    match v {
        JsonValue::Obj(fields) => {
            assert_eq!(fields.len(), 1);
            assert_eq!(fields[0].0, "a");
            match &fields[0].1 {
                JsonValue::Arr(items) => {
                    assert_eq!(items.len(), 4);
                    assert_eq!(items[0], JsonValue::Num("1".to_string()));
                    assert_eq!(items[1], JsonValue::Bool(true));
                    assert_eq!(items[2], JsonValue::Null);
                    assert_eq!(items[3], JsonValue::Str("x".to_string()));
                }
                _ => panic!("expected an array"),
            }
        }
        _ => panic!("expected an object"),
    }
}

#[test]
fn json_string_escapes_decode() {
    let v = parse_json(r#""a\n\t\"\\\u00e9\uD83D\uDE00b""#).expect("parses");
    assert_eq!(v, JsonValue::Str("a\n\t\"\\\u{e9}\u{1F600}b".to_string()));
}

#[test]
fn json_rejects_malformed_documents() {
    assert!(parse_json("").is_none());
    assert!(parse_json("{").is_none());
    assert!(parse_json("[1,]").is_none());
    assert!(parse_json("01").is_none());
    assert!(parse_json("1.").is_none());
    assert!(parse_json("tru").is_none());
    assert!(parse_json("\"\\q\"").is_none());
    assert!(parse_json("{\"a\":1,\"a\":2}").is_none());
    assert!(parse_json("{\"a\":1} trailing").is_none());
}

#[test]
fn json_value_parse_reports_the_end_position() {
    let (v, end) = parse_value("  42,rest", 0).expect("parses");
    assert_eq!(v, JsonValue::Num("42".to_string()));
    assert_eq!(end, 4);
}

#[test]
fn record_rejects_duplicate_fields() {
    let body = r#"{"source_id":"00000000-0000-0000-0000-000000000001","source_id":"00000000-0000-0000-0000-000000000001","server_id":"00000000-0000-0000-0000-000000000002","timestamp":"2026-02-18T00:00:00Z"}"#;
    assert!(parse_record(body).is_none());
}

#[test]
fn record_ignores_unknown_fields() {
    let body = r#"{"source_id":"00000000-0000-0000-0000-000000000001","server_id":"00000000-0000-0000-0000-000000000002","timestamp":"2026-02-18T00:00:00Z","firmware":"v2"}"#;
    assert!(parse_record(body).is_some());
}

#[test]
fn nested_extras_round_trip() {
    let rec = Telemetry {
        source_id: 7,
        server_id: 8,
        timestamp: Timestamp {
            year: 2026,
            month: 12,
            day: 31,
            hour: 23,
            minute: 59,
            second: 59,
            nanos: 999_999_999,
        },
        cpu: None,
        memory: Some("-1.5e3".to_string()),
        temperature: Some("0".to_string()),
        extras: vec![(
            "orientation".to_string(),
            JsonValue::Arr(vec![
                JsonValue::Num("1.2".to_string()),
                JsonValue::Num("0.5".to_string()),
                JsonValue::Num("-0.1".to_string()),
            ]),
        ), (
            "tags".to_string(),
            JsonValue::Obj(vec![(
                "site".to_string(),
                JsonValue::Str("kigali \"01\"\n".to_string()),
            )]),
        )],
    };
    let line = serialize_record(&rec);
    let back = parse_record(&line).expect("nested extras parse back");
    assert_eq!(back, rec);
}
