//! The telemetry record: the unit of storage. A record always carries its
//! source and collector identifiers and its timestamp; each metric is
//! independently optional, and the open attribute bag is a key-value map
//! that is never absent. A record is written as one self-contained JSON
//! object per line and read back without loss.
use crate::ident::{parse_uuid, uuid_of_text, uuid_text, write_uuid, lemma_uuid_round_trip};
use crate::json::{
    is_number_text, parse_json, parse_number, ser_value, sp_document, write_json, valid_json,
    fields_unique, JsonV, JsonValue, lemma_model_fields_len, lemma_model_fields_snoc,
    lemma_model_list_len, lemma_model_list_snoc, lemma_json_round_trip,
};
use crate::text::string_from_chars;
use crate::timestamp::{parse_ts, ts_of_text, ts_text, write_ts, Timestamp};
use vstd::prelude::*;
use vstd::string::*;

verus! {

/// One telemetry sample, as the store keeps it.
#[derive(Debug, PartialEq)]
pub struct Telemetry {
    /// The entity the sample describes.
    pub source_id: u128,
    /// The collector instance that ingested it.
    pub server_id: u128,
    /// When the sample was taken, in UTC.
    pub timestamp: Timestamp,
    /// Processor load, as the number text the payload carried.
    pub cpu: Option<String>,
    /// Memory usage, as the number text the payload carried.
    pub memory: Option<String>,
    /// Temperature, as the number text the payload carried.
    pub temperature: Option<String>,
    /// The open attribute bag: string keys to schema-less values.
    pub extras: Vec<(String, JsonValue)>,
}

/// The mathematical shape of a record.
pub struct TelemetryModel {
    pub source_id: u128,
    pub server_id: u128,
    pub timestamp: Timestamp,
    pub cpu: Option<Seq<char>>,
    pub memory: Option<Seq<char>>,
    pub temperature: Option<Seq<char>>,
    pub extras: Seq<(Seq<char>, JsonV)>,
}

impl Telemetry {
    pub open spec fn model(self) -> TelemetryModel {
        TelemetryModel {
            source_id: self.source_id,
            server_id: self.server_id,
            timestamp: self.timestamp,
            cpu: match self.cpu {
                Option::Some(t) => Option::Some(t@),
                Option::None => Option::None,
            },
            memory: match self.memory {
                Option::Some(t) => Option::Some(t@),
                Option::None => Option::None,
            },
            temperature: match self.temperature {
                Option::Some(t) => Option::Some(t@),
                Option::None => Option::None,
            },
            extras: JsonValue::model_fields(self.extras@),
        }
    }
}

/// A well-formed record: metric texts are numbers, the timestamp is a real
/// calendar moment, and the attribute bag has distinct keys and well-formed
/// values.
pub open spec fn model_valid(m: TelemetryModel) -> bool {
    &&& m.timestamp.valid()
    &&& (m.cpu matches Option::Some(t) ==> is_number_text(t))
    &&& (m.memory matches Option::Some(t) ==> is_number_text(t))
    &&& (m.temperature matches Option::Some(t) ==> is_number_text(t))
    &&& fields_unique(m.extras)
    &&& forall|k: int| 0 <= k < m.extras.len() ==> valid_json((#[trigger] m.extras[k]).1)
}

/// An optional metric as it stands in the record's JSON object: the number
/// itself, or `null`.
pub open spec fn metric_json(v: Option<Seq<char>>) -> JsonV {
    match v {
        Option::Some(t) => JsonV::Num(t),
        Option::None => JsonV::Null,
    }
}

/// The record as a JSON object, fields in their fixed order.
pub open spec fn record_json(m: TelemetryModel) -> JsonV {
    JsonV::Obj(
        seq![
            ("source_id"@, JsonV::Str(uuid_text(m.source_id))),
            ("server_id"@, JsonV::Str(uuid_text(m.server_id))),
            ("timestamp"@, JsonV::Str(ts_text(m.timestamp))),
            ("cpu"@, metric_json(m.cpu)),
            ("memory"@, metric_json(m.memory)),
            ("temperature"@, metric_json(m.temperature)),
            ("extras"@, JsonV::Obj(m.extras)),
        ],
    )
}

/// The one line of text that stores a record.
pub open spec fn record_text(m: TelemetryModel) -> Seq<char> {
    ser_value(record_json(m))
}

/// The first field with this key, if any.
pub open spec fn lookup(fields: Seq<(Seq<char>, JsonV)>, k: Seq<char>) -> Option<JsonV>
    decreases fields.len(),
{
    if fields.len() == 0 {
        Option::None
    } else if fields[0].0 == k {
        Option::Some(fields[0].1)
    } else {
        lookup(fields.drop_first(), k)
    }
}

/// A required identifier field: a string in one of the UUID text forms.
pub open spec fn field_id(fields: Seq<(Seq<char>, JsonV)>, k: Seq<char>) -> Option<u128> {
    match lookup(fields, k) {
        Option::Some(JsonV::Str(t)) => uuid_of_text(t),
        _ => Option::None,
    }
}

/// The required timestamp field: an RFC 3339 string.
pub open spec fn field_ts(fields: Seq<(Seq<char>, JsonV)>) -> Option<Timestamp> {
    match lookup(fields, "timestamp"@) {
        Option::Some(JsonV::Str(t)) => ts_of_text(t),
        _ => Option::None,
    }
}

/// An optional metric field: absent or `null` means not measured; anything
/// but a number is refused.
pub open spec fn field_metric(fields: Seq<(Seq<char>, JsonV)>, k: Seq<char>) -> Option<
    Option<Seq<char>>,
> {
    match lookup(fields, k) {
        Option::None => Option::Some(Option::None),
        Option::Some(JsonV::Null) => Option::Some(Option::None),
        Option::Some(JsonV::Num(t)) => if is_number_text(t) {
            Option::Some(Option::Some(t))
        } else {
            Option::None
        },
        _ => Option::None,
    }
}

/// The attribute bag field: absent or `null` means the empty bag; anything
/// but an object is refused.
pub open spec fn field_extras(fields: Seq<(Seq<char>, JsonV)>) -> Option<
    Seq<(Seq<char>, JsonV)>,
> {
    match lookup(fields, "extras"@) {
        Option::None => Option::Some(Seq::empty()),
        Option::Some(JsonV::Null) => Option::Some(Seq::empty()),
        Option::Some(JsonV::Obj(fs)) => if fields_unique(fs) && (forall|k: int|
            0 <= k < fs.len() ==> valid_json((#[trigger] fs[k]).1)) {
            Option::Some(fs)
        } else {
            Option::None
        },
        _ => Option::None,
    }
}

/// The record a parsed JSON value denotes: an object whose required fields
/// are present and well-formed. Unknown fields are ignored.
pub open spec fn record_of_json(v: JsonV) -> Option<TelemetryModel> {
    match v {
        JsonV::Obj(fields) => {
            let sid = field_id(fields, "source_id"@);
            let cid = field_id(fields, "server_id"@);
            let ts = field_ts(fields);
            let cpu = field_metric(fields, "cpu"@);
            let mem = field_metric(fields, "memory"@);
            let temp = field_metric(fields, "temperature"@);
            let ex = field_extras(fields);
            if sid is Some && cid is Some && ts is Some && cpu is Some && mem is Some && temp
                is Some && ex is Some {
                Option::Some(
                    TelemetryModel {
                        source_id: sid.unwrap(),
                        server_id: cid.unwrap(),
                        timestamp: ts.unwrap(),
                        cpu: cpu.unwrap(),
                        memory: mem.unwrap(),
                        temperature: temp.unwrap(),
                        extras: ex.unwrap(),
                    },
                )
            } else {
                Option::None
            }
        },
        _ => Option::None,
    }
}

/// The record one line of text denotes, if it is a well-formed record line.
pub open spec fn record_of_text(s: Seq<char>) -> Option<TelemetryModel> {
    match sp_document(s) {
        Option::Some(v) => record_of_json(v),
        Option::None => Option::None,
    }
}

/// Every record that parses is well-formed.
pub proof fn lemma_record_of_json_valid(v: JsonV)
    requires
        record_of_json(v) is Some,
    ensures
        model_valid(record_of_json(v).unwrap()),
{
    match v {
        JsonV::Obj(fields) => {
            let ts = field_ts(fields);
            match lookup(fields, "timestamp"@) {
                Option::Some(JsonV::Str(t)) => {
                    crate::timestamp::lemma_ts_of_text_valid(t);
                },
                _ => {},
            }
        },
        _ => {},
    }
}

/// A deep copy whose mathematical value is the same.
pub fn clone_json(v: &JsonValue) -> (r: JsonValue)
    ensures
        r.model() == v.model(),
    decreases v,
{
    match v {
        JsonValue::Null => JsonValue::Null,
        JsonValue::Bool(b) => JsonValue::Bool(*b),
        JsonValue::Num(t) => JsonValue::Num(t.clone()),
        JsonValue::Str(t) => JsonValue::Str(t.clone()),
        JsonValue::Arr(items) => {
            let n: usize = items.len();
            let mut out: Vec<JsonValue> = Vec::new();
            proof {
                lemma_model_list_len(items@);
                assert(JsonValue::model_list(out@) =~= JsonValue::model_list(items@).take(0));
            }
            let mut k: usize = 0;
            while k < n
                invariant
                    0 <= k <= n,
                    n == items@.len(),
                    *v == JsonValue::Arr(*items),
                    JsonValue::model_list(items@).len() == n,
                    forall|m: int|
                        0 <= m < n ==> #[trigger] JsonValue::model_list(items@)[m]
                            == items@[m].model(),
                    JsonValue::model_list(out@) == JsonValue::model_list(items@).take(k as int),
                decreases n - k,
            {
                proof {
                    assert(decreases_to!(*v => v->Arr_0));
                    assert(decreases_to!(v->Arr_0 => v->Arr_0@));
                    assert(decreases_to!(v->Arr_0@ => v->Arr_0@[k as int]));
                    assert(v->Arr_0@[k as int] == items@[k as int]);
                    assert(decreases_to!(*v => items@[k as int]));
                }
                let c = clone_json(&items[k]);
                proof {
                    lemma_model_list_snoc(out@, c);
                    assert(JsonValue::model_list(items@).take(k as int + 1)
                        =~= JsonValue::model_list(items@).take(k as int).push(
                        items@[k as int].model(),
                    ));
                }
                out.push(c);
                k = k + 1;
            }
            proof {
                assert(JsonValue::model_list(items@).take(n as int) =~= JsonValue::model_list(
                    items@,
                ));
            }
            JsonValue::Arr(out)
        },
        JsonValue::Obj(fields) => {
            let n: usize = fields.len();
            let mut out: Vec<(String, JsonValue)> = Vec::new();
            proof {
                lemma_model_fields_len(fields@);
                assert(JsonValue::model_fields(out@) =~= JsonValue::model_fields(fields@).take(
                    0,
                ));
            }
            let mut k: usize = 0;
            while k < n
                invariant
                    0 <= k <= n,
                    n == fields@.len(),
                    *v == JsonValue::Obj(*fields),
                    JsonValue::model_fields(fields@).len() == n,
                    forall|m: int|
                        0 <= m < n ==> #[trigger] JsonValue::model_fields(fields@)[m] == (
                            fields@[m].0@,
                            fields@[m].1.model(),
                        ),
                    JsonValue::model_fields(out@) == JsonValue::model_fields(fields@).take(
                        k as int,
                    ),
                decreases n - k,
            {
                proof {
                    assert(decreases_to!(*v => v->Obj_0));
                    assert(decreases_to!(v->Obj_0 => v->Obj_0@));
                    assert(decreases_to!(v->Obj_0@ => v->Obj_0@[k as int]));
                    assert(decreases_to!(v->Obj_0@[k as int] => v->Obj_0@[k as int].1));
                    assert(v->Obj_0@[k as int].1 == fields@[k as int].1);
                    assert(decreases_to!(*v => fields@[k as int].1));
                }
                let ck = fields[k].0.clone();
                let cv = clone_json(&fields[k].1);
                proof {
                    lemma_model_fields_snoc(out@, (ck, cv));
                    assert(JsonValue::model_fields(fields@).take(k as int + 1)
                        =~= JsonValue::model_fields(fields@).take(k as int).push(
                        (fields@[k as int].0@, fields@[k as int].1.model()),
                    ));
                }
                out.push((ck, cv));
                k = k + 1;
            }
            proof {
                assert(JsonValue::model_fields(fields@).take(n as int)
                    =~= JsonValue::model_fields(fields@));
            }
            JsonValue::Obj(out)
        },
    }
}

/// Whether `t` is exactly one well-formed JSON number.
pub fn number_text_ok(t: &str) -> (r: bool)
    ensures
        r == is_number_text(t@),
{
    let n: usize = t.unicode_len();
    match parse_number(t, 0) {
        Option::Some(p) => p.1 == n,
        Option::None => false,
    }
}

proof fn lemma_lookup_skip(fields: Seq<(Seq<char>, JsonV)>, k: Seq<char>, idx: int)
    requires
        0 <= idx <= fields.len(),
        forall|m: int| 0 <= m < idx ==> (#[trigger] fields[m]).0 != k,
    ensures
        lookup(fields, k) == lookup(fields.skip(idx), k),
    decreases idx,
{
    if idx > 0 {
        assert(fields[0].0 != k);
        assert(fields.len() > 0);
        assert(lookup(fields, k) == lookup(fields.drop_first(), k));
        assert forall|m: int| 0 <= m < idx - 1 implies (#[trigger] fields.drop_first()[m]).0
            != k by {
            assert(fields.drop_first()[m] == fields[m + 1]);
        }
        lemma_lookup_skip(fields.drop_first(), k, idx - 1);
        assert(fields.drop_first().skip(idx - 1) =~= fields.skip(idx));
    } else {
        assert(fields.skip(0) =~= fields);
    }
}

/// The index of the first field with this key.
fn find_field(fields: &Vec<(String, JsonValue)>, key: &String) -> (r: Option<usize>)
    ensures
        (match lookup(JsonValue::model_fields(fields@), key@) {
            Option::Some(v) => r is Some && (r.unwrap() as int) < fields@.len() && fields@[r.unwrap() as int].0@ == key@ && fields@[r.unwrap() as int].1.model() == v,
            Option::None => r is None,
        }),
{
    proof {
        lemma_model_fields_len(fields@);
    }
    let ghost mf = JsonValue::model_fields(fields@);
    let n: usize = fields.len();
    let mut m: usize = 0;
    while m < n
        invariant
            0 <= m <= n,
            n == fields@.len(),
            mf == JsonValue::model_fields(fields@),
            mf.len() == n,
            forall|t: int| 0 <= t < n ==> #[trigger] mf[t] == (fields@[t].0@, fields@[t].1.model()),
            forall|t: int| 0 <= t < m ==> (#[trigger] mf[t]).0 != key@,
        decreases n - m,
    {
        if fields[m].0 == *key {
            proof {
                lemma_lookup_skip(mf, key@, m as int);
                assert(mf.skip(m as int)[0] == mf[m as int]);
                assert(mf.skip(m as int).len() > 0);
                assert(mf[m as int].0 == key@);
                assert(lookup(mf.skip(m as int), key@) == Option::Some(mf[m as int].1));
            }
            return Some(m);
        }
        m = m + 1;
    }
    proof {
        lemma_lookup_skip(mf, key@, n as int);
        assert(mf.skip(n as int).len() == 0);
    }
    None
}

/// Parses one record line (or one ingest payload already decoded to text).
/// Returns the record exactly when the text is a well-formed record object.
pub fn parse_record(s: &str) -> (r: Option<Telemetry>)
    ensures
        (match record_of_text(s@) {
            Option::Some(m) => r is Some && r.unwrap().model() == m,
            Option::None => r is None,
        }),
{
    let parsed = parse_json(s);
    let v = match parsed {
        Option::Some(v) => v,
        Option::None => {
            return None;
        },
    };
    let fields = match v {
        JsonValue::Obj(fields) => fields,
        _ => {
            return None;
        },
    };
    let ghost mf = JsonValue::model_fields(fields@);
    let key_source = "source_id".to_owned();
    let key_server = "server_id".to_owned();
    let key_ts = "timestamp".to_owned();
    let key_cpu = "cpu".to_owned();
    let key_mem = "memory".to_owned();
    let key_temp = "temperature".to_owned();
    let key_extras = "extras".to_owned();
    let source_id: u128 = match find_field(&fields, &key_source) {
        Option::Some(idx) => {
            match &fields[idx].1 {
                JsonValue::Str(t) => {
                    match parse_uuid(t.as_str()) {
                        Option::Some(u) => u,
                        Option::None => {
                            return None;
                        },
                    }
                },
                _ => {
                    return None;
                },
            }
        },
        Option::None => {
            return None;
        },
    };
    let server_id: u128 = match find_field(&fields, &key_server) {
        Option::Some(idx) => {
            match &fields[idx].1 {
                JsonValue::Str(t) => {
                    match parse_uuid(t.as_str()) {
                        Option::Some(u) => u,
                        Option::None => {
                            return None;
                        },
                    }
                },
                _ => {
                    return None;
                },
            }
        },
        Option::None => {
            return None;
        },
    };
    let timestamp: Timestamp = match find_field(&fields, &key_ts) {
        Option::Some(idx) => {
            match &fields[idx].1 {
                JsonValue::Str(t) => {
                    match parse_ts(t.as_str()) {
                        Option::Some(ts) => ts,
                        Option::None => {
                            return None;
                        },
                    }
                },
                _ => {
                    return None;
                },
            }
        },
        Option::None => {
            return None;
        },
    };
    let cpu: Option<String> = match read_metric(&fields, &key_cpu) {
        Option::Some(o) => o,
        Option::None => {
            return None;
        },
    };
    let memory: Option<String> = match read_metric(&fields, &key_mem) {
        Option::Some(o) => o,
        Option::None => {
            return None;
        },
    };
    let temperature: Option<String> = match read_metric(&fields, &key_temp) {
        Option::Some(o) => o,
        Option::None => {
            return None;
        },
    };
    let extras: Vec<(String, JsonValue)> = match find_field(&fields, &key_extras) {
        Option::Some(idx) => {
            match &fields[idx].1 {
                JsonValue::Null => Vec::new(),
                JsonValue::Obj(_) => {
                    let cloned = clone_json(&fields[idx].1);
                    match cloned {
                        JsonValue::Obj(fs) => {
                            if check_extras(&fs) {
                                fs
                            } else {
                                return None;
                            }
                        },
                        _ => {
                            proof {
                                assert(false);
                            }
                            return None;
                        },
                    }
                },
                _ => {
                    return None;
                },
            }
        },
        Option::None => Vec::new(),
    };
    proof {
        assert(JsonValue::model_fields(Seq::<(String, JsonValue)>::empty()) =~= Seq::<(
            Seq<char>,
            JsonV,
        )>::empty());
    }
    Some(
        Telemetry {
            source_id,
            server_id,
            timestamp,
            cpu,
            memory,
            temperature,
            extras,
        },
    )
}

/// Reads an optional metric field: absent or `null` yields no measurement;
/// a number yields its text; anything else refuses the record.
fn read_metric(fields: &Vec<(String, JsonValue)>, key: &String) -> (r: Option<Option<String>>)
    ensures
        (match field_metric(JsonValue::model_fields(fields@), key@) {
            Option::Some(o) => r is Some && (match o {
                Option::Some(t) => r.unwrap() is Some && r.unwrap().unwrap()@ == t,
                Option::None => r.unwrap() is None,
            }),
            Option::None => r is None,
        }),
{
    match find_field(fields, key) {
        Option::Some(idx) => {
            match &fields[idx].1 {
                JsonValue::Null => Some(None),
                JsonValue::Num(t) => {
                    if number_text_ok(t.as_str()) {
                        Some(Some(t.clone()))
                    } else {
                        None
                    }
                },
                _ => None,
            }
        },
        Option::None => Some(None),
    }
}

/// Checks the attribute bag a parsed record carries: distinct keys and
/// well-formed values.
fn check_extras(fs: &Vec<(String, JsonValue)>) -> (r: bool)
    ensures
        r == (fields_unique(JsonValue::model_fields(fs@)) && (forall|k: int|
            0 <= k < JsonValue::model_fields(fs@).len() ==> valid_json(
                (#[trigger] JsonValue::model_fields(fs@)[k]).1,
            ))),
{
    proof {
        lemma_model_fields_len(fs@);
    }
    let ghost mf = JsonValue::model_fields(fs@);
    let n: usize = fs.len();
    let mut i: usize = 0;
    while i < n
        invariant
            0 <= i <= n,
            n == fs@.len(),
            mf == JsonValue::model_fields(fs@),
            mf.len() == n,
            forall|t: int| 0 <= t < n ==> #[trigger] mf[t] == (fs@[t].0@, fs@[t].1.model()),
            forall|a: int, b: int| 0 <= a < b < i ==> (#[trigger] mf[a]).0 != (#[trigger] mf[b]).0,
            forall|a: int, b: int|
                0 <= a < i && a < b < n ==> (#[trigger] mf[a]).0 != (#[trigger] mf[b]).0,
            forall|t: int| 0 <= t < i ==> valid_json((#[trigger] mf[t]).1),
        decreases n - i,
    {
        let mut j: usize = i + 1;
        while j < n
            invariant
                i < n,
                i + 1 <= j <= n,
                n == fs@.len(),
                mf == JsonValue::model_fields(fs@),
                mf.len() == n,
                forall|t: int| 0 <= t < n ==> #[trigger] mf[t] == (fs@[t].0@, fs@[t].1.model()),
                forall|b: int| i < b < j ==> (#[trigger] mf[b]).0 != mf[i as int].0,
            decreases n - j,
        {
            if fs[i].0 == fs[j].0 {
                proof {
                    assert(mf[i as int].0 == mf[j as int].0);
                    assert(!fields_unique(mf));
                }
                return false;
            }
            j = j + 1;
        }
        if !check_valid_json(&fs[i].1) {
            proof {
                assert(!valid_json(mf[i as int].1));
            }
            return false;
        }
        i = i + 1;
    }
    proof {
        assert(fields_unique(mf));
    }
    true
}

/// Whether a value is one the codec can write and read back.
pub fn check_valid_json(v: &JsonValue) -> (r: bool)
    ensures
        r == valid_json(v.model()),
    decreases v,
{
    match v {
        JsonValue::Null => true,
        JsonValue::Bool(_) => true,
        JsonValue::Num(t) => number_text_ok(t.as_str()),
        JsonValue::Str(_) => true,
        JsonValue::Arr(items) => {
            proof {
                lemma_model_list_len(items@);
            }
            let ghost ml = JsonValue::model_list(items@);
            let n: usize = items.len();
            let mut k: usize = 0;
            while k < n
                invariant
                    0 <= k <= n,
                    n == items@.len(),
                    *v == JsonValue::Arr(*items),
                    ml == JsonValue::model_list(items@),
                    ml.len() == n,
                    forall|m: int| 0 <= m < n ==> #[trigger] ml[m] == items@[m].model(),
                    forall|m: int| 0 <= m < k ==> valid_json(#[trigger] ml[m]),
                decreases n - k,
            {
                proof {
                    assert(decreases_to!(*v => v->Arr_0));
                    assert(decreases_to!(v->Arr_0 => v->Arr_0@));
                    assert(decreases_to!(v->Arr_0@ => v->Arr_0@[k as int]));
                    assert(v->Arr_0@[k as int] == items@[k as int]);
                    assert(decreases_to!(*v => items@[k as int]));
                }
                if !check_valid_json(&items[k]) {
                    proof {
                        assert(!valid_json(ml[k as int]));
                        assert(v.model() == JsonV::Arr(ml));
                        assert(JsonV::Arr(ml)->Arr_0 == ml);
                        assert(!valid_json(JsonV::Arr(ml)));
                    }
                    return false;
                }
                k = k + 1;
            }
            proof {
                assert(v.model() == JsonV::Arr(ml));
                assert(JsonV::Arr(ml)->Arr_0 == ml);
            }
            true
        },
        JsonValue::Obj(fields) => {
            // an object inside a value: same checks as the attribute bag
            check_extras_inner(v, fields)
        },
    }
}

/// The object case of `check_valid_json`, kept separate so the recursion
/// measure stays visible.
fn check_extras_inner(v: &JsonValue, fields: &Vec<(String, JsonValue)>) -> (r: bool)
    requires
        *v == JsonValue::Obj(*fields),
    ensures
        r == valid_json(v.model()),
    decreases v, 0int,
{
    proof {
        lemma_model_fields_len(fields@);
    }
    let ghost mf = JsonValue::model_fields(fields@);
    let n: usize = fields.len();
    let mut i: usize = 0;
    while i < n
        invariant
            0 <= i <= n,
            n == fields@.len(),
            *v == JsonValue::Obj(*fields),
            mf == JsonValue::model_fields(fields@),
            mf.len() == n,
            forall|t: int| 0 <= t < n ==> #[trigger] mf[t] == (fields@[t].0@, fields@[t].1.model()),
            forall|a: int, b: int| 0 <= a < b < i ==> (#[trigger] mf[a]).0 != (#[trigger] mf[b]).0,
            forall|a: int, b: int|
                0 <= a < i && a < b < n ==> (#[trigger] mf[a]).0 != (#[trigger] mf[b]).0,
            forall|t: int| 0 <= t < i ==> valid_json((#[trigger] mf[t]).1),
        decreases n - i,
    {
        let mut j: usize = i + 1;
        while j < n
            invariant
                i < n,
                i + 1 <= j <= n,
                n == fields@.len(),
                *v == JsonValue::Obj(*fields),
                mf == JsonValue::model_fields(fields@),
                mf.len() == n,
                forall|t: int| 0 <= t < n ==> #[trigger] mf[t] == (fields@[t].0@, fields@[t].1.model()),
                forall|b: int| i < b < j ==> (#[trigger] mf[b]).0 != mf[i as int].0,
            decreases n - j,
        {
            if fields[i].0 == fields[j].0 {
                proof {
                    assert(mf[i as int].0 == mf[j as int].0);
                    assert(!fields_unique(mf));
                    assert(v.model() == JsonV::Obj(mf));
                    assert(JsonV::Obj(mf)->Obj_0 == mf);
                }
                return false;
            }
            j = j + 1;
        }
        proof {
            assert(decreases_to!(*v => v->Obj_0));
            assert(decreases_to!(v->Obj_0 => v->Obj_0@));
            assert(decreases_to!(v->Obj_0@ => v->Obj_0@[i as int]));
            assert(decreases_to!(v->Obj_0@[i as int] => v->Obj_0@[i as int].1));
            assert(v->Obj_0@[i as int].1 == fields@[i as int].1);
            assert(decreases_to!(*v => fields@[i as int].1));
        }
        if !check_valid_json(&fields[i].1) {
            proof {
                assert(!valid_json(mf[i as int].1));
                assert(v.model() == JsonV::Obj(mf));
                assert(JsonV::Obj(mf)->Obj_0 == mf);
            }
            return false;
        }
        i = i + 1;
    }
    proof {
        assert(fields_unique(mf));
        assert(v.model() == JsonV::Obj(mf));
        assert(JsonV::Obj(mf)->Obj_0 == mf);
    }
    true
}

/// Whether a record is well formed, as the store requires it.
pub fn record_wf(t: &Telemetry) -> (r: bool)
    ensures
        r == model_valid(t.model()),
{
    if !t.timestamp.is_valid() {
        return false;
    }
    match &t.cpu {
        Option::Some(x) => {
            if !number_text_ok(x.as_str()) {
                return false;
            }
        },
        Option::None => {},
    }
    match &t.memory {
        Option::Some(x) => {
            if !number_text_ok(x.as_str()) {
                return false;
            }
        },
        Option::None => {},
    }
    match &t.temperature {
        Option::Some(x) => {
            if !number_text_ok(x.as_str()) {
                return false;
            }
        },
        Option::None => {},
    }
    check_extras(&t.extras)
}

/// Writes the one line of text that stores this record.
pub fn serialize_record(t: &Telemetry) -> (r: String)
    requires
        model_valid(t.model()),
    ensures
        r@ == record_text(t.model()),
{
    let mut obj: Vec<(String, JsonValue)> = Vec::new();
    let mut sid_chars: Vec<char> = Vec::new();
    write_uuid(t.source_id, &mut sid_chars);
    obj.push(("source_id".to_owned(), JsonValue::Str(string_from_chars(&sid_chars))));
    let mut cid_chars: Vec<char> = Vec::new();
    write_uuid(t.server_id, &mut cid_chars);
    obj.push(("server_id".to_owned(), JsonValue::Str(string_from_chars(&cid_chars))));
    let mut ts_chars: Vec<char> = Vec::new();
    write_ts(&t.timestamp, &mut ts_chars);
    obj.push(("timestamp".to_owned(), JsonValue::Str(string_from_chars(&ts_chars))));
    obj.push(("cpu".to_owned(), metric_value(&t.cpu)));
    obj.push(("memory".to_owned(), metric_value(&t.memory)));
    obj.push(("temperature".to_owned(), metric_value(&t.temperature)));
    let mut bag: Vec<(String, JsonValue)> = Vec::new();
    let n: usize = t.extras.len();
    proof {
        lemma_model_fields_len(t.extras@);
        assert(JsonValue::model_fields(bag@) =~= JsonValue::model_fields(t.extras@).take(0));
    }
    let mut k: usize = 0;
    while k < n
        invariant
            0 <= k <= n,
            n == t.extras@.len(),
            JsonValue::model_fields(t.extras@).len() == n,
            forall|m: int|
                0 <= m < n ==> #[trigger] JsonValue::model_fields(t.extras@)[m] == (
                    t.extras@[m].0@,
                    t.extras@[m].1.model(),
                ),
            JsonValue::model_fields(bag@) == JsonValue::model_fields(t.extras@).take(k as int),
        decreases n - k,
    {
        let ck = t.extras[k].0.clone();
        let cv = clone_json(&t.extras[k].1);
        proof {
            lemma_model_fields_snoc(bag@, (ck, cv));
            assert(JsonValue::model_fields(t.extras@).take(k as int + 1)
                =~= JsonValue::model_fields(t.extras@).take(k as int).push(
                (t.extras@[k as int].0@, t.extras@[k as int].1.model()),
            ));
        }
        bag.push((ck, cv));
        k = k + 1;
    }
    proof {
        assert(JsonValue::model_fields(t.extras@).take(n as int) =~= JsonValue::model_fields(
            t.extras@,
        ));
    }
    obj.push(("extras".to_owned(), JsonValue::Obj(bag)));
    let value = JsonValue::Obj(obj);
    proof {
        lemma_model_fields_len(value->Obj_0@);
        assert(value.model() =~~= record_json(t.model())) by {
            assert(JsonValue::model_fields(value->Obj_0@) =~= record_json(t.model())->Obj_0);
        }
    }
    let mut out: Vec<char> = Vec::new();
    write_json(&value, &mut out);
    string_from_chars(&out)
}

/// The JSON value of an optional metric.
fn metric_value(v: &Option<String>) -> (r: JsonValue)
    ensures
        r.model() == metric_json(
            match v {
                Option::Some(t) => Option::Some(t@),
                Option::None => Option::None,
            },
        ),
{
    match v {
        Option::Some(t) => JsonValue::Num(t.clone()),
        Option::None => JsonValue::Null,
    }
}

/// Round trip: a well-formed record's stored line parses back to exactly
/// that record.
#[verifier::rlimit(100)]
#[verifier::spinoff_prover]
pub proof fn lemma_record_round_trip(m: TelemetryModel)
    requires
        model_valid(m),
    ensures
        record_of_text(record_text(m)) == Option::Some(m),
{
    let v = record_json(m);
    let fields = v->Obj_0;
    reveal_strlit("source_id");
    reveal_strlit("server_id");
    reveal_strlit("timestamp");
    reveal_strlit("cpu");
    reveal_strlit("memory");
    reveal_strlit("temperature");
    reveal_strlit("extras");
    assert("source_id"@.len() == 9 && "server_id"@.len() == 9 && "timestamp"@.len() == 9
        && "cpu"@.len() == 3 && "memory"@.len() == 6 && "temperature"@.len() == 11
        && "extras"@.len() == 6);
    assert("source_id"@[1] == 'o' && "server_id"@[1] == 'e' && "timestamp"@[1] == 'i');
    assert("memory"@[0] == 'm' && "extras"@[0] == 'e');
    assert("source_id"@ != "server_id"@ && "source_id"@ != "timestamp"@ && "server_id"@
        != "timestamp"@ && "memory"@ != "extras"@);
    assert(fields.len() == 7);
    assert(fields[0].0 == "source_id"@ && fields[1].0 == "server_id"@ && fields[2].0
        == "timestamp"@ && fields[3].0 == "cpu"@ && fields[4].0 == "memory"@ && fields[5].0
        == "temperature"@ && fields[6].0 == "extras"@);
    assert(fields_unique(fields)) by {
        assert forall|a: int, b: int|
            0 <= a < b < 7 implies (#[trigger] fields[a]).0 != (#[trigger] fields[b]).0 by {
            assert(fields[0].0.len() == 9 && fields[1].0.len() == 9 && fields[2].0.len() == 9
                && fields[3].0.len() == 3 && fields[4].0.len() == 6 && fields[5].0.len() == 11
                && fields[6].0.len() == 6);
            assert(fields[0].0[1] == 'o' && fields[1].0[1] == 'e' && fields[2].0[1] == 'i');
            assert(fields[4].0[0] == 'm' && fields[6].0[0] == 'e');
        }
    }
    assert(valid_json(v)) by {
        assert(forall|k: int| 0 <= k < fields.len() ==> valid_json((#[trigger] fields[k]).1));
    }
    lemma_json_round_trip(v);
    lemma_lookup_at(fields, 0);
    lemma_lookup_at(fields, 1);
    lemma_lookup_at(fields, 2);
    lemma_lookup_at(fields, 3);
    lemma_lookup_at(fields, 4);
    lemma_lookup_at(fields, 5);
    lemma_lookup_at(fields, 6);
    lemma_uuid_round_trip(m.source_id);
    lemma_uuid_round_trip(m.server_id);
    crate::timestamp::lemma_ts_round_trip(m.timestamp);
}

/// In a duplicate-free object, looking a key up finds its own field.
proof fn lemma_lookup_at(fields: Seq<(Seq<char>, JsonV)>, i: int)
    requires
        fields_unique(fields),
        0 <= i < fields.len(),
    ensures
        lookup(fields, fields[i].0) == Option::Some(fields[i].1),
{
    assert forall|t: int| 0 <= t < i implies (#[trigger] fields[t]).0 != fields[i].0 by {}
    lemma_lookup_skip(fields, fields[i].0, i);
    assert(fields.skip(i).len() == fields.len() - i);
    assert(fields.skip(i)[0] == fields[i]);
    assert(lookup(fields.skip(i), fields[i].0) == Option::Some(fields[i].1));
}

} // verus!
