//! The telemetry service: the single entry point for ingest and query. An
//! ingest validates the payload's checksum, parses the record and persists
//! it; a query parses the filter and reads the store. Every call has one
//! labeled outcome suitable for an observability event.
use crate::ident::uuid_of_text;
use crate::integrity::{crc32_of, declared_checksum_of, parse_declared_checksum, verify_checksum};
use crate::record::{model_valid, record_of_text, record_text, Telemetry, TelemetryModel};
use crate::store::{query_spec, recs_model, MemStore};
use crate::text::truncate_chars;
use crate::ident::parse_uuid;
use vstd::prelude::*;
use vstd::string::*;
use vstd::utf8::{decode_utf8, valid_utf8};

verus! {

/// Why an ingest was rejected or failed.
#[derive(Debug, Clone, Copy, PartialEq, Eq, Structural)]
pub enum IngestError {
    /// The declared checksum is not eight hexadecimal digits.
    InvalidChecksumFormat,
    /// The declared checksum does not match the payload bytes.
    IntegrityMismatch,
    /// The payload does not decode and parse into a telemetry record.
    MalformedPayload,
    /// The store could not persist the record.
    PersistenceFailed,
}

/// Why a query was rejected or failed.
#[derive(Debug, Clone, Copy, PartialEq, Eq, Structural)]
pub enum QueryError {
    /// The filter does not parse as a source identifier.
    InvalidFilter,
    /// A stored line failed to parse back into a record.
    CorruptRecord,
    /// The store could not be read.
    RetrievalFailed,
}

/// The record a raw payload denotes: it must be UTF-8 text holding one
/// well-formed record object.
pub open spec fn parsed_payload(body: Seq<u8>) -> Option<TelemetryModel> {
    if valid_utf8(body) {
        record_of_text(decode_utf8(body))
    } else {
        Option::None
    }
}

/// What an ingest decides for a given payload and declared checksum, before
/// persistence: which record to store, or which rejection to answer.
/// Checked in this order: checksum format, checksum match, payload shape.
pub open spec fn ingest_decision(body: Seq<u8>, declared: Option<Seq<char>>) -> Result<
    TelemetryModel,
    IngestError,
> {
    match declared {
        Option::Some(h) => match declared_checksum_of(h) {
            Option::None => Result::Err(IngestError::InvalidChecksumFormat),
            Option::Some(c) => {
                if c != crc32_of(body) {
                    Result::Err(IngestError::IntegrityMismatch)
                } else {
                    ingest_parse(body)
                }
            },
        },
        Option::None => ingest_parse(body),
    }
}

pub open spec fn ingest_parse(body: Seq<u8>) -> Result<TelemetryModel, IngestError> {
    match parsed_payload(body) {
        Option::Some(m) => Result::Ok(m),
        Option::None => Result::Err(IngestError::MalformedPayload),
    }
}

/// What a query decides for given store contents and filter text.
pub open spec fn query_decision(lines: Seq<Seq<char>>, filter: Option<Seq<char>>) -> Result<
    Seq<TelemetryModel>,
    QueryError,
> {
    match filter {
        Option::Some(f) => match uuid_of_text(f) {
            Option::None => Result::Err(QueryError::InvalidFilter),
            Option::Some(x) => match query_spec(lines, Option::Some(x)) {
                Option::Some(rs) => Result::Ok(rs),
                Option::None => Result::Err(QueryError::CorruptRecord),
            },
        },
        Option::None => match query_spec(lines, Option::None) {
            Option::Some(rs) => Result::Ok(rs),
            Option::None => Result::Err(QueryError::CorruptRecord),
        },
    }
}

/// Decodes a payload's bytes as UTF-8 text.
///
/// Relies on `String::from_utf8`: it succeeds exactly on valid UTF-8 and
/// yields its decoding, as `vstd`'s UTF-8 specification states it.
#[verifier::external_body]
fn utf8_to_string(body: &[u8]) -> (r: Option<String>)
    ensures
        r is Some <==> valid_utf8(body@),
        r is Some ==> r.unwrap()@ == decode_utf8(body@),
{
    match String::from_utf8(body.to_vec()) {
        Ok(s) => Some(s),
        Err(_) => None,
    }
}

/// The view of an optional header value.
pub open spec fn opt_text(h: Option<&str>) -> Option<Seq<char>> {
    match h {
        Option::Some(s) => Option::Some(s@),
        Option::None => Option::None,
    }
}

/// The telemetry service over the in-memory append log.
pub struct TelemetryService {
    store: MemStore,
}

impl TelemetryService {
    /// The store's contents, for specification.
    pub closed spec fn contents(self) -> Seq<Seq<char>> {
        self.store.contents()
    }

    /// A service over an empty store.
    pub fn new() -> (r: TelemetryService)
        ensures
            r.contents() == Seq::<Seq<char>>::empty(),
    {
        TelemetryService { store: MemStore::new() }
    }

    /// How many lines the underlying store holds.
    pub fn line_count(&self) -> (r: usize)
        ensures
            r == self.contents().len(),
    {
        self.store.line_count()
    }

    /// Ingests one raw payload. If a checksum is declared it must be well
    /// formed and match the payload, and the payload must parse into a
    /// record; exactly then the record is appended as one line. On any
    /// rejection the store is unchanged.
    pub fn ingest(&mut self, body: &[u8], declared_checksum: Option<&str>) -> (r: Result<
        (),
        IngestError,
    >)
        ensures
            (match ingest_decision(body@, opt_text(declared_checksum)) {
                Result::Ok(m) => r is Ok && final(self).contents() == old(self).contents().push(
                    record_text(m),
                ),
                Result::Err(e) => r is Err && r.unwrap_err() == e && final(self).contents()
                    == old(self).contents(),
            }),
    {
        let declared: Option<u32> = match declared_checksum {
            Option::Some(h) => {
                match parse_declared_checksum(h) {
                    Option::Some(c) => Option::Some(c),
                    Option::None => {
                        return Err(IngestError::InvalidChecksumFormat);
                    },
                }
            },
            Option::None => Option::None,
        };
        if !verify_checksum(body, declared) {
            return Err(IngestError::IntegrityMismatch);
        }
        let text: String = match utf8_to_string(body) {
            Option::Some(t) => t,
            Option::None => {
                return Err(IngestError::MalformedPayload);
            },
        };
        let rec: Telemetry = match crate::record::parse_record(text.as_str()) {
            Option::Some(rec) => rec,
            Option::None => {
                return Err(IngestError::MalformedPayload);
            },
        };
        proof {
            crate::record::lemma_record_of_json_valid(
                crate::json::sp_document(decode_utf8(body@)).unwrap(),
            );
        }
        self.store.append(&rec);
        Ok(())
    }

    /// Reads every stored record in append order, optionally filtered by a
    /// source identifier given as text. A filter that does not parse is an
    /// error distinct from an empty result; an empty store is a normal
    /// empty result.
    pub fn query(&self, filter: Option<&str>) -> (r: Result<Vec<Telemetry>, QueryError>)
        ensures
            (match query_decision(self.contents(), opt_text(filter)) {
                Result::Ok(rs) => r is Ok && recs_model(r.unwrap()@) == rs,
                Result::Err(e) => r is Err && r.unwrap_err() == e,
            }),
    {
        let parsed_filter: Option<u128> = match filter {
            Option::Some(f) => {
                match parse_uuid(f) {
                    Option::Some(x) => Option::Some(x),
                    Option::None => {
                        return Err(QueryError::InvalidFilter);
                    },
                }
            },
            Option::None => Option::None,
        };
        match self.store.query_all(parsed_filter) {
            Ok(v) => Ok(v),
            Err(_) => Err(QueryError::CorruptRecord),
        }
    }
}

/// The stable machine-readable rejection codes of the ingest boundary.
#[derive(Debug, Clone, Copy, PartialEq, Eq, Structural)]
pub enum TelemetryIngestHttpError {
    InvalidCrc,
    CrcMismatch,
    InvalidJson,
    IngestFailed,
}

impl TelemetryIngestHttpError {
    /// The boundary rejection for an ingest failure.
    pub fn from_ingest_error(e: &IngestError) -> (r: TelemetryIngestHttpError)
        ensures
            r == (match e {
                IngestError::InvalidChecksumFormat => TelemetryIngestHttpError::InvalidCrc,
                IngestError::IntegrityMismatch => TelemetryIngestHttpError::CrcMismatch,
                IngestError::MalformedPayload => TelemetryIngestHttpError::InvalidJson,
                IngestError::PersistenceFailed => TelemetryIngestHttpError::IngestFailed,
            }),
    {
        match e {
            IngestError::InvalidChecksumFormat => TelemetryIngestHttpError::InvalidCrc,
            IngestError::IntegrityMismatch => TelemetryIngestHttpError::CrcMismatch,
            IngestError::MalformedPayload => TelemetryIngestHttpError::InvalidJson,
            IngestError::PersistenceFailed => TelemetryIngestHttpError::IngestFailed,
        }
    }

    /// The HTTP status the boundary answers with.
    pub fn status_code(&self) -> (r: u16)
        ensures
            r == (match self {
                TelemetryIngestHttpError::IngestFailed => 500u16,
                _ => 400u16,
            }),
    {
        match self {
            TelemetryIngestHttpError::IngestFailed => 500,
            _ => 400,
        }
    }

    /// The stable machine-readable code.
    pub fn code(&self) -> (r: String)
        ensures
            r@ == (match self {
                TelemetryIngestHttpError::InvalidCrc => "invalid_crc"@,
                TelemetryIngestHttpError::CrcMismatch => "crc_mismatch"@,
                TelemetryIngestHttpError::InvalidJson => "invalid_json"@,
                TelemetryIngestHttpError::IngestFailed => "internal"@,
            }),
    {
        match self {
            TelemetryIngestHttpError::InvalidCrc => "invalid_crc".to_owned(),
            TelemetryIngestHttpError::CrcMismatch => "crc_mismatch".to_owned(),
            TelemetryIngestHttpError::InvalidJson => "invalid_json".to_owned(),
            TelemetryIngestHttpError::IngestFailed => "internal".to_owned(),
        }
    }

    /// The short human-readable cause.
    pub fn message(&self) -> (r: String)
        ensures
            r@ == (match self {
                TelemetryIngestHttpError::InvalidCrc => "X-CRC32 must be 8 hex digits (CRC-32/IEEE)"@,
                TelemetryIngestHttpError::CrcMismatch => "CRC does not match request body"@,
                TelemetryIngestHttpError::InvalidJson => "Request body must be valid telemetry JSON"@,
                TelemetryIngestHttpError::IngestFailed => "Failed to ingest telemetry"@,
            }),
    {
        match self {
            TelemetryIngestHttpError::InvalidCrc => "X-CRC32 must be 8 hex digits (CRC-32/IEEE)".to_owned(),
            TelemetryIngestHttpError::CrcMismatch => "CRC does not match request body".to_owned(),
            TelemetryIngestHttpError::InvalidJson => "Request body must be valid telemetry JSON".to_owned(),
            TelemetryIngestHttpError::IngestFailed => "Failed to ingest telemetry".to_owned(),
        }
    }
}

/// The longest cause text an outcome event may carry.
pub const CAUSE_CAP: usize = 256;

/// One labeled outcome per use-case call: the use-case name, whether it
/// succeeded, and on error a classification and a bounded cause.
#[derive(Debug, PartialEq)]
pub struct OutcomeEvent {
    /// The use-case name: `ingest` or `query`.
    pub use_case: String,
    /// Whether the call succeeded.
    pub ok: bool,
    /// The stable error code, on error.
    pub error_kind: Option<String>,
    /// A short human-readable cause, at most `CAUSE_CAP` characters.
    pub cause: String,
}

impl OutcomeEvent {
    /// An event is well formed when its error marker, classification and
    /// cause agree and the cause is bounded.
    pub open spec fn wf(self) -> bool {
        &&& self.cause@.len() <= CAUSE_CAP
        &&& (self.ok <==> self.error_kind is None)
        &&& (self.ok ==> self.cause@.len() == 0)
    }
}

/// The stable code of an ingest rejection, as the boundary reports it.
pub open spec fn ingest_error_code(e: IngestError) -> Seq<char> {
    match e {
        IngestError::InvalidChecksumFormat => "invalid_crc"@,
        IngestError::IntegrityMismatch => "crc_mismatch"@,
        IngestError::MalformedPayload => "invalid_json"@,
        IngestError::PersistenceFailed => "internal"@,
    }
}

/// The one outcome event of an ingest call.
pub fn ingest_outcome(r: &Result<(), IngestError>) -> (ev: OutcomeEvent)
    ensures
        ev.wf(),
        ev.use_case@ == "ingest"@,
        ev.ok == r is Ok,
        r is Err ==> ev.error_kind is Some && ev.error_kind.unwrap()@ == ingest_error_code(
            r.unwrap_err(),
        ),
{
    proof {
        reveal_strlit("");
    }
    match r {
        Ok(_) => OutcomeEvent {
            use_case: "ingest".to_owned(),
            ok: true,
            error_kind: None,
            cause: "".to_owned(),
        },
        Err(e) => {
            let http = TelemetryIngestHttpError::from_ingest_error(e);
            let msg = http.message();
            let bounded = truncate_chars(msg.as_str(), CAUSE_CAP);
            OutcomeEvent {
                use_case: "ingest".to_owned(),
                ok: false,
                error_kind: Some(http.code()),
                cause: bounded,
            }
        },
    }
}

/// The one outcome event of a query call.
pub fn query_outcome(r: &Result<Vec<Telemetry>, QueryError>) -> (ev: OutcomeEvent)
    ensures
        ev.wf(),
        ev.use_case@ == "query"@,
        ev.ok == r is Ok,
        r is Err ==> ev.error_kind is Some && ev.error_kind.unwrap()@ == (match r.unwrap_err() {
            QueryError::InvalidFilter => "invalid_filter"@,
            QueryError::CorruptRecord => "corrupt_record"@,
            QueryError::RetrievalFailed => "internal"@,
        }),
{
    proof {
        reveal_strlit("");
    }
    match r {
        Ok(_) => OutcomeEvent {
            use_case: "query".to_owned(),
            ok: true,
            error_kind: None,
            cause: "".to_owned(),
        },
        Err(e) => {
            let kind: String = match e {
                QueryError::InvalidFilter => "invalid_filter".to_owned(),
                QueryError::CorruptRecord => "corrupt_record".to_owned(),
                QueryError::RetrievalFailed => "internal".to_owned(),
            };
            let msg: String = match e {
                QueryError::InvalidFilter => "Filter must be a source identifier".to_owned(),
                QueryError::CorruptRecord => "A stored record line failed to parse".to_owned(),
                QueryError::RetrievalFailed => "Failed to read the store".to_owned(),
            };
            let bounded = truncate_chars(msg.as_str(), CAUSE_CAP);
            OutcomeEvent {
                use_case: "query".to_owned(),
                ok: false,
                error_kind: Some(kind),
                cause: bounded,
            }
        },
    }
}

} // verus!
