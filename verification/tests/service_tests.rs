use rustpulse::integrity::crc32_ieee;
use rustpulse::service::{
    ingest_outcome, query_outcome, IngestError, QueryError, TelemetryIngestHttpError,
    TelemetryService,
};

fn telemetry_body() -> &'static str {
    r#"{"source_id":"00000000-0000-0000-0000-000000000001","server_id":"00000000-0000-0000-0000-000000000002","timestamp":"2026-02-18T00:00:00Z","cpu":1.0,"memory":null,"temperature":null,"extras":{}}"#
}

fn body_for_source(source: &str, n: u32) -> String {
    format!(
        r#"{{"source_id":"{}","server_id":"00000000-0000-0000-0000-000000000002","timestamp":"2026-02-18T00:00:{:02}Z","extras":{{}}}}"#,
        source, n
    )
}

const SOURCE_A: &str = "aaaaaaaa-aaaa-aaaa-aaaa-aaaaaaaaaaaa";
const SOURCE_B: &str = "bbbbbbbb-bbbb-bbbb-bbbb-bbbbbbbbbbbb";

#[test]
fn ingest_without_declared_checksum_is_accepted_and_stores_one_line() {
    let mut svc = TelemetryService::new();
    let r = svc.ingest(telemetry_body().as_bytes(), None);
    assert!(r.is_ok());
    assert_eq!(svc.line_count(), 1);
}

#[test]
fn ingest_with_matching_checksum_is_accepted() {
    let mut svc = TelemetryService::new();
    let crc = crc32_ieee(telemetry_body().as_bytes());
    let header = format!("{crc:08x}");
    let r = svc.ingest(telemetry_body().as_bytes(), Some(&header));
    assert!(r.is_ok());
    assert_eq!(svc.line_count(), 1);
}

#[test]
fn ingest_with_mismatched_checksum_is_rejected_and_store_unchanged() {
    let mut svc = TelemetryService::new();
    let r = svc.ingest(telemetry_body().as_bytes(), Some("00000000"));
    assert_eq!(r, Err(IngestError::IntegrityMismatch));
    assert_eq!(svc.line_count(), 0);

    let http = TelemetryIngestHttpError::from_ingest_error(&r.unwrap_err());
    assert_eq!(http.code(), "crc_mismatch");
    assert_eq!(http.status_code(), 400);
}

#[test]
fn ingest_with_malformed_declared_checksum_is_rejected() {
    let mut svc = TelemetryService::new();
    let r = svc.ingest(telemetry_body().as_bytes(), Some("not-hex!"));
    assert_eq!(r, Err(IngestError::InvalidChecksumFormat));
    assert_eq!(svc.line_count(), 0);

    let http = TelemetryIngestHttpError::from_ingest_error(&r.unwrap_err());
    assert_eq!(http.code(), "invalid_crc");
}

#[test]
fn ingest_of_json_without_source_id_is_rejected_as_invalid_json() {
    let mut svc = TelemetryService::new();
    let body = r#"{"server_id":"00000000-0000-0000-0000-000000000002","timestamp":"2026-02-18T00:00:00Z","cpu":1.0,"extras":{}}"#;
    let r = svc.ingest(body.as_bytes(), None);
    assert_eq!(r, Err(IngestError::MalformedPayload));
    assert_eq!(svc.line_count(), 0);

    let http = TelemetryIngestHttpError::from_ingest_error(&r.unwrap_err());
    assert_eq!(http.code(), "invalid_json");
}

#[test]
fn ingest_of_invalid_utf8_is_rejected() {
    let mut svc = TelemetryService::new();
    let r = svc.ingest(&[0xFF, 0xFE, 0x7B], None);
    assert_eq!(r, Err(IngestError::MalformedPayload));
    assert_eq!(svc.line_count(), 0);
}

#[test]
fn query_of_a_store_never_written_is_an_empty_success() {
    let svc = TelemetryService::new();
    let r = svc.query(None).expect("an empty store is a normal state");
    assert!(r.is_empty());
}

#[test]
fn query_with_unparsable_filter_is_an_error_not_a_non_match() {
    let mut svc = TelemetryService::new();
    svc.ingest(telemetry_body().as_bytes(), None).unwrap();
    let r = svc.query(Some("not-a-uuid"));
    assert_eq!(r, Err(QueryError::InvalidFilter));
}

#[test]
fn three_records_for_one_source_come_back_in_ingest_order() {
    let mut svc = TelemetryService::new();
    for n in 0..3u32 {
        svc.ingest(body_for_source(SOURCE_A, n).as_bytes(), None).unwrap();
    }
    for n in 0..2u32 {
        svc.ingest(body_for_source(SOURCE_B, n).as_bytes(), None).unwrap();
    }
    assert_eq!(svc.line_count(), 5);

    let only_a = svc.query(Some(SOURCE_A)).expect("query succeeds");
    assert_eq!(only_a.len(), 3);
    for (n, rec) in only_a.iter().enumerate() {
        assert_eq!(rec.source_id, 0xaaaaaaaa_aaaa_aaaa_aaaa_aaaaaaaaaaaa);
        assert_eq!(rec.timestamp.second, n as u8);
    }
}

#[test]
fn filtered_query_never_returns_another_source() {
    let mut svc = TelemetryService::new();
    svc.ingest(body_for_source(SOURCE_A, 0).as_bytes(), None).unwrap();
    svc.ingest(body_for_source(SOURCE_B, 0).as_bytes(), None).unwrap();
    svc.ingest(body_for_source(SOURCE_A, 1).as_bytes(), None).unwrap();

    let only_b = svc.query(Some(SOURCE_B)).expect("query succeeds");
    assert_eq!(only_b.len(), 1);
    for rec in &only_b {
        assert_eq!(rec.source_id, 0xbbbbbbbb_bbbb_bbbb_bbbb_bbbbbbbbbbbb);
    }
}

#[test]
fn two_queries_without_an_append_return_identical_sequences() {
    let mut svc = TelemetryService::new();
    svc.ingest(body_for_source(SOURCE_A, 0).as_bytes(), None).unwrap();
    svc.ingest(body_for_source(SOURCE_B, 1).as_bytes(), None).unwrap();

    let first = svc.query(None).expect("query succeeds");
    let second = svc.query(None).expect("query succeeds");
    assert_eq!(first, second);

    let first = svc.query(Some(SOURCE_A)).expect("query succeeds");
    let second = svc.query(Some(SOURCE_A)).expect("query succeeds");
    assert_eq!(first, second);
}

#[test]
fn append_then_query_includes_the_record_exactly_once() {
    let mut svc = TelemetryService::new();
    svc.ingest(body_for_source(SOURCE_B, 0).as_bytes(), None).unwrap();
    let before = svc.query(Some(SOURCE_A)).expect("query succeeds");
    assert_eq!(before.len(), 0);

    svc.ingest(body_for_source(SOURCE_A, 7).as_bytes(), None).unwrap();
    let after = svc.query(Some(SOURCE_A)).expect("query succeeds");
    assert_eq!(after.len(), 1);
    assert_eq!(after[0].timestamp.second, 7);

    let all = svc.query(None).expect("query succeeds");
    assert_eq!(all.len(), 2);
    assert_eq!(all[1].source_id, after[0].source_id);
}

#[test]
fn every_call_has_one_labeled_outcome() {
    let mut svc = TelemetryService::new();

    let ok = svc.ingest(telemetry_body().as_bytes(), None);
    let ev = ingest_outcome(&ok);
    assert_eq!(ev.use_case, "ingest");
    assert!(ev.ok);
    assert!(ev.error_kind.is_none());
    assert!(ev.cause.is_empty());

    let bad = svc.ingest(telemetry_body().as_bytes(), Some("00000000"));
    let ev = ingest_outcome(&bad);
    assert!(!ev.ok);
    assert_eq!(ev.error_kind.as_deref(), Some("crc_mismatch"));
    assert!(!ev.cause.is_empty());
    assert!(ev.cause.chars().count() <= 256);

    let q = svc.query(Some("nope"));
    let ev = query_outcome(&q);
    assert_eq!(ev.use_case, "query");
    assert!(!ev.ok);
    assert_eq!(ev.error_kind.as_deref(), Some("invalid_filter"));

    let q = svc.query(None);
    let ev = query_outcome(&q);
    assert!(ev.ok);
    assert!(ev.error_kind.is_none());
}

#[test]
fn ingest_accepts_a_prefixed_declared_checksum() {
    let mut svc = TelemetryService::new();
    let crc = crc32_ieee(telemetry_body().as_bytes());
    let header = format!("0x{crc:08X}");
    let r = svc.ingest(telemetry_body().as_bytes(), Some(&header));
    assert!(r.is_ok());
    assert_eq!(svc.line_count(), 1);
}

#[test]
fn ingested_records_round_trip_through_a_query() {
    let mut svc = TelemetryService::new();
    svc.ingest(telemetry_body().as_bytes(), None).unwrap();
    let all = svc.query(None).expect("query succeeds");
    assert_eq!(all.len(), 1);
    assert_eq!(all[0].source_id, 1);
    assert_eq!(all[0].server_id, 2);
    assert_eq!(all[0].cpu.as_deref(), Some("1.0"));
    assert_eq!(
        (all[0].timestamp.year, all[0].timestamp.month, all[0].timestamp.day),
        (2026, 2, 18)
    );
}
