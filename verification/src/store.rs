//! The append log store: ordered, append-only persistence of telemetry
//! records with filtered full retrieval. This is the store's logic over its
//! contents — a sequence of independently parseable lines; the in-memory
//! store below holds them directly, and a file-backed adapter can reuse the
//! same contracts line by line.
use crate::record::{
    model_valid, record_of_text, record_text, serialize_record, parse_record, Telemetry,
    TelemetryModel,
};
use vstd::prelude::*;
use vstd::string::*;

verus! {

/// How the append log store fails: the backing medium cannot be opened, a
/// record cannot be encoded, or a stored line cannot be read back.
#[derive(Debug, Clone, Copy, PartialEq, Eq, Structural)]
pub enum StoreError {
    StoreUnavailable,
    EncodingError,
    CorruptRecord,
}

/// The records a sequence of stored lines denotes, in stored order; nothing
/// if any line fails to parse — a reader must be able to trust that a
/// successful result is complete and uncorrupted.
pub open spec fn parse_lines(lines: Seq<Seq<char>>) -> Option<Seq<TelemetryModel>>
    decreases lines.len(),
{
    if lines.len() == 0 {
        Option::Some(Seq::empty())
    } else {
        match parse_lines(lines.drop_last()) {
            Option::Some(rs) => match record_of_text(lines.last()) {
                Option::Some(m) => Option::Some(rs.push(m)),
                Option::None => Option::None,
            },
            Option::None => Option::None,
        }
    }
}

/// Whether a record belongs to this source.
pub open spec fn src_pred(x: u128) -> spec_fn(TelemetryModel) -> bool {
    |m: TelemetryModel| m.source_id == x
}

/// Keeps the records whose source matches the filter; no filter keeps all.
pub open spec fn filter_records(rs: Seq<TelemetryModel>, f: Option<u128>) -> Seq<
    TelemetryModel,
> {
    match f {
        Option::None => rs,
        Option::Some(x) => rs.filter(src_pred(x)),
    }
}

/// One step of filtering: appending a record appends it to the filtered
/// view exactly when it matches.
proof fn lemma_filter_snoc(rs: Seq<TelemetryModel>, m: TelemetryModel, x: u128)
    ensures
        rs.push(m).filter(src_pred(x)) == (if m.source_id == x {
            rs.filter(src_pred(x)).push(m)
        } else {
            rs.filter(src_pred(x))
        }),
{
    reveal_with_fuel(Seq::<TelemetryModel>::filter, 2);
    assert(rs.push(m).drop_last() =~= rs);
    assert(rs.push(m).last() == m);
}

/// What a full filtered read of the store returns.
pub open spec fn query_spec(lines: Seq<Seq<char>>, f: Option<u128>) -> Option<
    Seq<TelemetryModel>,
> {
    match parse_lines(lines) {
        Option::Some(rs) => Option::Some(filter_records(rs, f)),
        Option::None => Option::None,
    }
}

/// The models of a vector of records, in order.
pub open spec fn recs_model(v: Seq<Telemetry>) -> Seq<TelemetryModel> {
    Seq::new(v.len(), |i: int| v[i].model())
}

/// The in-memory append log: a growing sequence of record lines. One store
/// instance is meant to be constructed once and shared; appends go through
/// `&mut` and so are serialized by ownership.
pub struct MemStore {
    lines: Vec<String>,
}

impl MemStore {
    /// The store's contents: each stored line, in append order.
    pub closed spec fn contents(self) -> Seq<Seq<char>> {
        Seq::new(self.lines@.len(), |i: int| self.lines@[i]@)
    }

    /// An empty store: the backing medium's absence is a valid empty state.
    pub fn new() -> (r: MemStore)
        ensures
            r.contents() == Seq::<Seq<char>>::empty(),
    {
        let r = MemStore { lines: Vec::new() };
        proof {
            assert(r.contents() =~= Seq::<Seq<char>>::empty());
        }
        r
    }

    /// How many lines the store holds.
    pub fn line_count(&self) -> (r: usize)
        ensures
            r == self.contents().len(),
    {
        self.lines.len()
    }

    /// Appends one record as one self-contained line. The store only ever
    /// grows; nothing already stored changes.
    pub fn append(&mut self, rec: &Telemetry)
        requires
            model_valid(rec.model()),
        ensures
            final(self).contents() == old(self).contents().push(record_text(rec.model())),
    {
        let line = serialize_record(rec);
        self.lines.push(line);
        proof {
            assert(self.contents() =~= old(self).contents().push(record_text(rec.model())));
        }
    }

    /// Reads the whole store in append order, optionally keeping only one
    /// source's records. A line that fails to parse aborts the whole read
    /// with `CorruptRecord`; an empty store is a normal empty result.
    #[verifier::rlimit(100)]
    #[verifier::spinoff_prover]
    pub fn query_all(&self, filter: Option<u128>) -> (r: Result<Vec<Telemetry>, StoreError>)
        ensures
            (match query_spec(self.contents(), filter) {
                Option::Some(rs) => r is Ok && recs_model(r.unwrap()@) == rs,
                Option::None => r is Err && r.unwrap_err() == StoreError::CorruptRecord,
            }),
    {
        let ghost all = self.contents();
        let n: usize = self.lines.len();
        let mut out: Vec<Telemetry> = Vec::new();
        let mut k: usize = 0;
        proof {
            assert(all.take(0) =~= Seq::<Seq<char>>::empty());
            assert(parse_lines(all.take(0)) == Option::Some(Seq::<TelemetryModel>::empty()));
            assert(recs_model(out@) =~= filter_records(Seq::empty(), filter));
        }
        while k < n
            invariant
                0 <= k <= n,
                n == self.lines@.len(),
                all == self.contents(),
                all.len() == n,
                forall|i: int| 0 <= i < n ==> #[trigger] all[i] == self.lines@[i]@,
                parse_lines(all.take(k as int)) is Some,
                recs_model(out@) == filter_records(parse_lines(all.take(k as int)).unwrap(), filter),
            decreases n - k,
        {
            let parsed = parse_record(self.lines[k].as_str());
            proof {
                assert(all.take(k as int + 1).drop_last() =~= all.take(k as int));
                assert(all.take(k as int + 1).last() == all[k as int]);
            }
            match parsed {
                Option::Some(rec) => {
                    let keep: bool = match filter {
                        Option::Some(x) => rec.source_id == x,
                        Option::None => true,
                    };
                    let ghost rs_old = parse_lines(all.take(k as int)).unwrap();
                    let ghost m = rec.model();
                    proof {
                        assert(parse_lines(all.take(k as int + 1)) == Option::Some(
                            rs_old.push(m),
                        ));
                        if filter is Some {
                            lemma_filter_snoc(rs_old, m, filter.unwrap());
                        }
                    }
                    if keep {
                        out.push(rec);
                        proof {
                            assert(recs_model(out@) =~= filter_records(
                                rs_old.push(m),
                                filter,
                            ));
                        }
                    } else {
                        proof {
                            assert(recs_model(out@) =~= filter_records(
                                rs_old.push(m),
                                filter,
                            ));
                        }
                    }
                },
                Option::None => {
                    proof {
                        assert(parse_lines(all.take(k as int + 1)) is None);
                        lemma_parse_lines_prefix_none(all, k as int + 1);
                    }
                    return Err(StoreError::CorruptRecord);
                },
            }
            k = k + 1;
        }
        proof {
            assert(all.take(n as int) =~= all);
        }
        Ok(out)
    }
}

/// If some prefix of the lines is corrupt, the whole store reads as corrupt.
proof fn lemma_parse_lines_prefix_none(lines: Seq<Seq<char>>, k: int)
    requires
        0 <= k <= lines.len(),
        parse_lines(lines.take(k)) is None,
    ensures
        parse_lines(lines) is None,
    decreases lines.len() - k,
{
    if k < lines.len() {
        assert(lines.take(k + 1).drop_last() =~= lines.take(k));
        assert(parse_lines(lines.take(k + 1)) is None);
        lemma_parse_lines_prefix_none(lines, k + 1);
    } else {
        assert(lines.take(k) =~= lines);
    }
}

/// Idempotent reads: a read takes `&self` and so changes nothing, and any
/// two reads of the same store contents with the same filter return the
/// identical ordered sequence.
pub proof fn lemma_query_idempotent(
    lines: Seq<Seq<char>>,
    f: Option<u128>,
    r1: Seq<TelemetryModel>,
    r2: Seq<TelemetryModel>,
)
    requires
        query_spec(lines, f) == Option::Some(r1),
        query_spec(lines, f) == Option::Some(r2),
    ensures
        r1 == r2,
{
}

/// Filter isolation: a filtered read never returns a record of another
/// source.
pub proof fn lemma_filter_isolation(lines: Seq<Seq<char>>, x: u128)
    requires
        query_spec(lines, Option::Some(x)) is Some,
    ensures
        forall|i: int|
            0 <= i < query_spec(lines, Option::Some(x)).unwrap().len() ==> (
            #[trigger] query_spec(lines, Option::Some(x)).unwrap()[i]).source_id == x,
{
    let rs = parse_lines(lines).unwrap();
    assert forall|i: int|
        0 <= i < query_spec(lines, Option::Some(x)).unwrap().len() implies (
    #[trigger] query_spec(lines, Option::Some(x)).unwrap()[i]).source_id == x by {
        rs.lemma_filter_pred(src_pred(x), i);
        assert(src_pred(x)(rs.filter(src_pred(x))[i]));
    }
}

/// Append then query: after a well-formed record is appended to an
/// uncorrupted store, a read filtered by its source returns the earlier
/// matches with the new record exactly once at the end, and an unfiltered
/// read returns every earlier record with the new record at the end.
pub proof fn lemma_append_then_query(lines: Seq<Seq<char>>, m: TelemetryModel)
    requires
        model_valid(m),
        parse_lines(lines) is Some,
    ensures
        query_spec(lines.push(record_text(m)), Option::Some(m.source_id)) == Option::Some(
            query_spec(lines, Option::Some(m.source_id)).unwrap().push(m),
        ),
        query_spec(lines.push(record_text(m)), Option::None) == Option::Some(
            parse_lines(lines).unwrap().push(m),
        ),
{
    let line = record_text(m);
    let lines2 = lines.push(line);
    assert(lines2.drop_last() =~= lines);
    assert(lines2.last() == line);
    crate::record::lemma_record_round_trip(m);
    let rs = parse_lines(lines).unwrap();
    assert(parse_lines(lines2) == Option::Some(rs.push(m)));
    lemma_filter_snoc(rs, m, m.source_id);
    assert(src_pred(m.source_id)(m));
}

/// Every record a filter keeps was already in the unfiltered sequence.
proof fn lemma_filter_elements(rs: Seq<TelemetryModel>, x: u128, i: int)
    requires
        0 <= i < rs.filter(src_pred(x)).len(),
    ensures
        rs.contains(rs.filter(src_pred(x))[i]),
    decreases rs.len(),
{
    reveal_with_fuel(Seq::<TelemetryModel>::filter, 2);
    if rs.len() > 0 {
        let f = rs.filter(src_pred(x));
        let fd = rs.drop_last().filter(src_pred(x));
        if src_pred(x)(rs.last()) {
            assert(f == fd.push(rs.last()));
            if i < fd.len() {
                lemma_filter_elements(rs.drop_last(), x, i);
                let e = fd[i];
                let j = choose|j: int| 0 <= j < rs.drop_last().len() && rs.drop_last()[j] == e;
                assert(rs[j] == e);
            } else {
                assert(f[i] == rs.last());
                assert(rs[rs.len() - 1] == rs.last());
            }
        } else {
            assert(f == fd);
            lemma_filter_elements(rs.drop_last(), x, i);
            let e = fd[i];
            let j = choose|j: int| 0 <= j < rs.drop_last().len() && rs.drop_last()[j] == e;
            assert(rs[j] == e);
        }
    }
}

/// Append then query, sharpened: when the record was not in the store
/// before, the filtered read returns it exactly once — as the last element,
/// with no earlier occurrence.
pub proof fn lemma_append_then_query_unique(lines: Seq<Seq<char>>, m: TelemetryModel)
    requires
        model_valid(m),
        parse_lines(lines) is Some,
        !parse_lines(lines).unwrap().contains(m),
    ensures
        ({
            let res = query_spec(lines.push(record_text(m)), Option::Some(m.source_id)).unwrap();
            &&& query_spec(lines.push(record_text(m)), Option::Some(m.source_id)) is Some
            &&& res.len() >= 1
            &&& res.last() == m
            &&& forall|i: int| 0 <= i < res.len() - 1 ==> res[i] != m
        }),
{
    lemma_append_then_query(lines, m);
    let rs = parse_lines(lines).unwrap();
    let prior = query_spec(lines, Option::Some(m.source_id)).unwrap();
    let res = query_spec(lines.push(record_text(m)), Option::Some(m.source_id)).unwrap();
    assert(res == prior.push(m));
    assert forall|i: int| 0 <= i < res.len() - 1 implies res[i] != m by {
        assert(res[i] == prior[i]);
        lemma_filter_elements(rs, m.source_id, i);
        if prior[i] == m {
            assert(rs.contains(m));
        }
    }
}

} // verus!
