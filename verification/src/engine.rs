use vstd::prelude::*;
use vstd::string::{StrSliceExecFns, StringExecFns};
use crate::broadcast::{ring_push, Broadcaster};
use crate::config::{models_lookup, spec_models_ok, ModelField, ModelSchema, NyroConfig};
use crate::errors::NyroError;
use crate::frame::{encode_log, entry_payload, parse_payload, ser_envelope, spec_rebuild};
use crate::json::{check_record_wf, rec_names_contains, record_to_json, ser_record};
use crate::metrics::{bump, reservoir_push, Metrics, MetricsSnapshot};
use crate::models::{
    rec_id, rec_lookup, spec_byte_op, spec_op_byte, wf_record, EntryV, JsonVal, LogEntry,
    Operation, Record, RecordV,
};
use crate::storage::{spec_latest_entry, spec_sec_ids, LogStorage};

verus! {

// ---------------------------------------------------------------------------
// The engine facade
//
// Owns the per-model segments, the batch queue, the metrics and the change
// broadcaster, and routes every operation.  The surrounding process drives
// the batch timer, persists flushed bytes, and performs all I/O.
// ---------------------------------------------------------------------------

/// An insert body as decoded at the boundary: either a JSON object or
/// something else (which the engine rejects).
pub enum JsonDoc {
    Object(Record),
    Other,
}

/// Relies on `std::time::SystemTime::now`: milliseconds since the Unix
/// epoch, for entry timestamps.
#[verifier::external_body]
fn now_millis() -> u64 {
    match std::time::SystemTime::now().duration_since(std::time::UNIX_EPOCH) {
        Ok(d) => d.as_millis() as u64,
        Err(_) => 0,
    }
}

/// Relies on `std::time::SystemTime::now`: nanoseconds since the Unix
/// epoch, truncated; used only for latency samples.
#[verifier::external_body]
fn now_nanos() -> u64 {
    match std::time::SystemTime::now().duration_since(std::time::UNIX_EPOCH) {
        Ok(d) => d.as_nanos() as u64,
        Err(_) => 0,
    }
}

// ---------------------------------------------------------------------------
// Validation and projection
// ---------------------------------------------------------------------------

/// The first required schema field the record lacks, in declaration order.
pub open spec fn first_missing_required(fields: Seq<ModelField>, r: RecordV) -> Option<Seq<char>>
    decreases fields.len(),
{
    if fields.len() == 0 {
        None
    } else if fields[0].required && !(rec_lookup(r, fields[0].name@) is Some) {
        Some(fields[0].name@)
    } else {
        first_missing_required(fields.drop_first(), r)
    }
}

/// Projection of a record onto the first `i` schema fields: declared fields
/// keep their values, in declaration order, without duplicates.
pub open spec fn spec_project_upto(fields: Seq<ModelField>, i: int, r: RecordV) -> RecordV
    decreases i,
{
    if i <= 0 || i > fields.len() {
        Seq::<(Seq<char>, crate::models::JVal)>::empty()
    } else {
        let p = spec_project_upto(fields, i - 1, r);
        match rec_lookup(r, fields[i - 1].name@) {
            Some(v) => if rec_names_contains(p, fields[i - 1].name@) {
                p
            } else {
                p.push((fields[i - 1].name@, v))
            },
            None => p,
        }
    }
}

/// Projection of a record onto a schema.
pub open spec fn spec_project(fields: Seq<ModelField>, r: RecordV) -> RecordV {
    spec_project_upto(fields, fields.len() as int, r)
}

/// `rs` lists, for pairwise distinct ids, each id's latest stored record:
/// one element per id, so no record is reported twice for one id.
pub open spec fn listed_by_distinct_ids(h: Seq<EntryV>, rs: Seq<Record>, ids: Seq<u64>) -> bool {
    &&& ids.len() == rs.len()
    &&& forall|i: int, j: int| 0 <= i < j < ids.len() ==> ids[i] != ids[j]
    &&& forall|i: int|
        0 <= i < ids.len() ==> spec_latest_entry(h, #[trigger] ids[i]) is Some && rs[i]@
            == spec_latest_entry(h, ids[i])->Some_0.rec
}

/// Every id with a latest stored entry has that entry's record in `rs`.
pub open spec fn covers_all_latest(h: Seq<EntryV>, rs: Seq<RecordV>) -> bool {
    forall|id: u64|
        #![trigger spec_latest_entry(h, id)]
        spec_latest_entry(h, id) is Some ==> exists|i: int|
            0 <= i < rs.len() && rs[i] == spec_latest_entry(h, id)->Some_0.rec
}

/// The record is the latest stored entry of some id in this history.
pub open spec fn is_latest_of_some(h: Seq<EntryV>, rec: RecordV) -> bool {
    exists|id: u64|
        #![trigger spec_latest_entry(h, id)]
        spec_latest_entry(h, id) is Some && rec == spec_latest_entry(h, id)->Some_0.rec
}

// ---------------------------------------------------------------------------
// Storage routing
// ---------------------------------------------------------------------------

/// The segment registered under a model name, by first match.
pub open spec fn storages_find(ss: Seq<(String, LogStorage)>, name: Seq<char>) -> Option<
    LogStorage,
>
    decreases ss.len(),
{
    if ss.len() == 0 {
        None
    } else if ss[0].0@ == name {
        Some(ss[0].1)
    } else {
        storages_find(ss.drop_first(), name)
    }
}

pub proof fn lemma_storages_find_push(
    ss: Seq<(String, LogStorage)>,
    p: (String, LogStorage),
    name: Seq<char>,
)
    ensures
        storages_find(ss.push(p), name) == (if storages_find(ss, name) is Some {
            storages_find(ss, name)
        } else if p.0@ == name {
            Some(p.1)
        } else {
            None
        }),
    decreases ss.len(),
{
    if ss.len() == 0 {
        assert(ss.push(p)[0] == p);
        assert(ss.push(p).drop_first() =~= ss);
    } else {
        assert(ss.push(p)[0] == ss[0]);
        assert(ss.push(p).drop_first() =~= ss.drop_first().push(p));
        lemma_storages_find_push(ss.drop_first(), p, name);
    }
}

pub proof fn lemma_models_lookup_push(
    ms: Seq<(String, ModelSchema)>,
    p: (String, ModelSchema),
    name: Seq<char>,
)
    ensures
        models_lookup(ms.push(p), name) == (if models_lookup(ms, name) is Some {
            models_lookup(ms, name)
        } else if p.0@ == name {
            Some(p.1)
        } else {
            None
        }),
    decreases ms.len(),
{
    if ms.len() == 0 {
        assert(ms.push(p)[0] == p);
        assert(ms.push(p).drop_first() =~= ms);
    } else {
        assert(ms.push(p)[0] == ms[0]);
        assert(ms.push(p).drop_first() =~= ms.drop_first().push(p));
        lemma_models_lookup_push(ms.drop_first(), p, name);
    }
}

/// Replacing the entry at the first match of its name moves the lookup to
/// the new segment and leaves every other name alone.
pub proof fn lemma_storages_find_update(
    ss: Seq<(String, LogStorage)>,
    q: int,
    st: LogStorage,
    name: Seq<char>,
)
    requires
        0 <= q < ss.len(),
        forall|i: int| 0 <= i < q ==> (#[trigger] ss[i]).0@ != ss[q].0@,
    ensures
        storages_find(ss.update(q, (ss[q].0, st)), name) == (if name == ss[q].0@ {
            Some(st)
        } else {
            storages_find(ss, name)
        }),
    decreases ss.len(),
{
    let ss2 = ss.update(q, (ss[q].0, st));
    if q == 0 {
        assert(ss2[0] == (ss[0].0, st));
        assert(ss2.drop_first() =~= ss.drop_first());
    } else {
        assert(ss2[0] == ss[0]);
        assert(ss2.drop_first() =~= ss.drop_first().update(q - 1, (ss[q].0, st)));
        assert(forall|i: int|
            0 <= i < ss.drop_first().len() ==> #[trigger] ss.drop_first()[i] == ss[i + 1]);
        assert(ss.drop_first()[q - 1] == ss[q]);
        lemma_storages_find_update(ss.drop_first(), q - 1, st, name);
        assert(ss[0].0@ != ss[q].0@);
    }
}

pub open spec fn storage_names_unique(ss: Seq<(String, LogStorage)>) -> bool {
    forall|i: int, j: int| 0 <= i < j < ss.len() ==> ss[i].0@ != ss[j].0@
}

pub proof fn lemma_storages_find_none_iff(ss: Seq<(String, LogStorage)>, name: Seq<char>)
    ensures
        (storages_find(ss, name) is None) <==> (forall|i: int|
            0 <= i < ss.len() ==> (#[trigger] ss[i]).0@ != name),
    decreases ss.len(),
{
    if ss.len() > 0 {
        lemma_storages_find_none_iff(ss.drop_first(), name);
        assert(forall|i: int|
            0 <= i < ss.drop_first().len() ==> #[trigger] ss.drop_first()[i] == ss[i + 1]);
        if ss[0].0@ != name && (storages_find(ss.drop_first(), name) is None) {
            assert forall|i: int| 0 <= i < ss.len() implies (#[trigger] ss[i]).0@ != name by {
                if i > 0 {
                    assert(ss[i] == ss.drop_first()[i - 1]);
                }
            }
        }
    }
}

/// The bytes registered for a model's log file, or an empty image.
pub open spec fn bytes_for(files: Seq<(String, Vec<u8>)>, name: Seq<char>) -> Seq<u8>
    decreases files.len(),
{
    if files.len() == 0 {
        Seq::<u8>::empty()
    } else if files[0].0@ == name {
        files[0].1@
    } else {
        bytes_for(files.drop_first(), name)
    }
}

// ---------------------------------------------------------------------------
// The engine state
// ---------------------------------------------------------------------------

pub struct NyroDB {
    pub config: NyroConfig,
    pub storages: Vec<(String, LogStorage)>,
    pub pending: Vec<(String, Vec<u8>)>,
    pub metrics: Metrics,
    pub broadcaster: Broadcaster,
    pub shutdown_flag: bool,
}

/// The history registered under a model name in a segment list.
pub open spec fn hist_of(ss: Seq<(String, LogStorage)>, m: Seq<char>) -> Option<Seq<EntryV>> {
    match storages_find(ss, m) {
        Some(st) => Some(st.history@),
        None => None,
    }
}

impl NyroDB {
    pub open spec fn wf(&self) -> bool {
        &&& forall|i: int| 0 <= i < self.storages@.len() ==> (#[trigger] self.storages@[i]).1.wf()
        &&& storage_names_unique(self.storages@)
        &&& forall|name: Seq<char>|
            (#[trigger] storages_find(self.storages@, name) is Some) <==> (models_lookup(
                self.config.models@,
                name,
            ) is Some)
        &&& spec_models_ok(self.config.models@)
        &&& self.broadcaster.wf()
        &&& self.config.performance.batch_size >= 1
    }

    /// The history of a model's segment, when the model exists.
    pub open spec fn spec_history(&self, name: Seq<char>) -> Option<Seq<EntryV>> {
        hist_of(self.storages@, name)
    }

    /// Builds the engine: one segment per configured model, recovered from
    /// the bytes of its log file (an absent file reads as empty).
    pub fn new(config: NyroConfig, files: Vec<(String, Vec<u8>)>) -> (r: NyroDB)
        requires
            spec_models_ok(config.models@),
            config.performance.batch_size >= 1,
        ensures
            r.wf(),
            r.config == config,
            r.pending@.len() == 0,
            !r.shutdown_flag,
            r.broadcaster.capacity == 10000,
            r.broadcaster.subscribers@.len() == 0,
            r.metrics.enabled == config.metrics.enable,
            r.metrics.total_inserts == 0 && r.metrics.total_gets == 0 && r.metrics.total_queries
                == 0,
            r.metrics.insert_times@.len() == 0 && r.metrics.get_times@.len() == 0,
            forall|name: Seq<char>|
                models_lookup(config.models@, name) is Some ==> #[trigger] r.spec_history(name)
                    == Some(spec_rebuild(bytes_for(files@, name))),
    {
        let mut storages: Vec<(String, LogStorage)> = Vec::new();
        let metrics = Metrics::new(&config.metrics);
        let broadcaster = Broadcaster::new(10000);
        let mut q: usize = 0;
        proof {
            assert(config.models@.take(0) =~= Seq::<(String, ModelSchema)>::empty());
        }
        while q < config.models.len()
            invariant
                0 <= q <= config.models@.len(),
                storage_names_unique(storages@),
                forall|i: int|
                    0 <= i < storages@.len() ==> (#[trigger] storages@[i]).1.wf(),
                forall|name: Seq<char>|
                    (#[trigger] storages_find(storages@, name) is Some) <==> (models_lookup(
                        config.models@.take(q as int),
                        name,
                    ) is Some),
                forall|name: Seq<char>|
                    models_lookup(config.models@.take(q as int), name) is Some
                        ==> #[trigger] storages_find(storages@, name) is Some
                        && storages_find(storages@, name)->Some_0.history@ == spec_rebuild(
                        bytes_for(files@, name),
                    ),
            decreases config.models@.len() - q,
        {
            let name = &config.models[q].0;
            let mut found: bool = false;
            {
                let mut w: usize = 0;
                proof {
                    assert(storages@.skip(0) =~= storages@);
                }
                while w < storages.len()
                    invariant
                        0 <= w <= storages@.len(),
                        found ==> storages_find(storages@, name@) is Some,
                        !found ==> storages_find(storages@, name@) == storages_find(
                            storages@.skip(w as int),
                            name@,
                        ),
                    decreases storages@.len() - w,
                {
                    proof {
                        assert(storages@.skip(w as int)[0] == storages@[w as int]);
                        assert(storages@.skip(w as int).drop_first() =~= storages@.skip(
                            w as int + 1,
                        ));
                    }
                    if !found && storages[w].0.eq(name) {
                        found = true;
                    }
                    w += 1;
                }
                proof {
                    if !found {
                        assert(storages@.skip(storages@.len() as int) =~= Seq::<
                            (String, LogStorage),
                        >::empty());
                    }
                }
            }
            let ghost pre = storages@;
            if !found {
                let bytes = lookup_file_bytes(&files, name);
                let st = LogStorage::new(bytes);
                storages.push((name.clone(), st));
                proof {
                    lemma_storages_find_none_iff(pre, name@);
                    assert(storage_names_unique(storages@)) by {
                        assert(forall|i: int|
                            0 <= i < pre.len() ==> #[trigger] storages@[i] == pre[i]);
                        assert(storages@[pre.len() as int].0@ == name@);
                    }
                    assert forall|n2: Seq<char>| #[trigger]
                        storages_find(storages@, n2) == (if storages_find(pre, n2) is Some {
                            storages_find(pre, n2)
                        } else if name@ == n2 {
                            Some(storages@.last().1)
                        } else {
                            None
                        }) by {
                        assert(storages@ =~= pre.push(storages@.last()));
                        lemma_storages_find_push(pre, storages@.last(), n2);
                    }
                }
            }
            proof {
                assert(config.models@.take(q as int + 1) =~= config.models@.take(q as int).push(
                    config.models@[q as int],
                ));
                assert forall|n2: Seq<char>| #[trigger]
                    models_lookup(config.models@.take(q as int + 1), n2) == (if models_lookup(
                        config.models@.take(q as int),
                        n2,
                    ) is Some {
                        models_lookup(config.models@.take(q as int), n2)
                    } else if name@ == n2 {
                        Some(config.models@[q as int].1)
                    } else {
                        None
                    }) by {
                    lemma_models_lookup_push(
                        config.models@.take(q as int),
                        config.models@[q as int],
                        n2,
                    );
                }
            }
            q += 1;
        }
        proof {
            assert(config.models@.take(config.models@.len() as int) =~= config.models@);
        }
        NyroDB {
            config: config,
            storages: storages,
            pending: Vec::new(),
            metrics: metrics,
            broadcaster: broadcaster,
            shutdown_flag: false,
        }
    }
}

/// The registered log-file bytes of a model, copied; empty when absent.
fn lookup_file_bytes(files: &Vec<(String, Vec<u8>)>, name: &String) -> (r: Vec<u8>)
    ensures
        r@ == bytes_for(files@, name@),
{
    let mut q: usize = 0;
    proof {
        assert(files@.skip(0) =~= files@);
    }
    while q < files.len()
        invariant
            0 <= q <= files@.len(),
            bytes_for(files@, name@) == bytes_for(files@.skip(q as int), name@),
        decreases files@.len() - q,
    {
        proof {
            assert(files@.skip(q as int)[0] == files@[q as int]);
            assert(files@.skip(q as int).drop_first() =~= files@.skip(q as int + 1));
        }
        if files[q].0.eq(name) {
            return crate::json::copy_range(&files[q].1, 0, files[q].1.len());
        }
        q += 1;
    }
    proof {
        assert(files@.skip(files@.len() as int) =~= Seq::<(String, Vec<u8>)>::empty());
    }
    Vec::new()
}

} // verus!

verus! {

/// The first required field of the schema that the record lacks.
pub fn check_required(schema: &ModelSchema, rec: &Record) -> (r: Option<String>)
    ensures
        match r {
            Some(f) => first_missing_required(schema.fields@, rec@) == Some(f@),
            None => first_missing_required(schema.fields@, rec@) is None,
        },
{
    let mut q: usize = 0;
    proof {
        assert(schema.fields@.skip(0) =~= schema.fields@);
    }
    while q < schema.fields.len()
        invariant
            0 <= q <= schema.fields@.len(),
            first_missing_required(schema.fields@, rec@) == first_missing_required(
                schema.fields@.skip(q as int),
                rec@,
            ),
        decreases schema.fields@.len() - q,
    {
        proof {
            assert(schema.fields@.skip(q as int)[0] == schema.fields@[q as int]);
            assert(schema.fields@.skip(q as int).drop_first() =~= schema.fields@.skip(
                q as int + 1,
            ));
        }
        if schema.fields[q].required {
            match crate::models::rec_field_value(rec, &schema.fields[q].name) {
                Some(_) => {},
                None => {
                    return Some(schema.fields[q].name.clone());
                },
            }
        }
        q += 1;
    }
    proof {
        assert(schema.fields@.skip(schema.fields@.len() as int) =~= Seq::<ModelField>::empty());
    }
    None
}

/// A value copy that provably preserves the view.
fn jval_copy(v: &JsonVal) -> (r: JsonVal)
    ensures
        r@ == v@,
{
    match v {
        JsonVal::Null => JsonVal::Null,
        JsonVal::Bool(b) => JsonVal::Bool(*b),
        JsonVal::UInt(n) => JsonVal::UInt(*n),
        JsonVal::Num(t) => JsonVal::Num(t.clone()),
        JsonVal::Str(s) => JsonVal::Str(s.clone()),
        JsonVal::Nested(t) => JsonVal::Nested(t.clone()),
    }
}

/// Projects a record onto its schema; see `spec_project`.
pub fn project_record(schema: &ModelSchema, rec: &Record) -> (r: Record)
    ensures
        r@ == spec_project(schema.fields@, rec@),
{
    let mut out = Record { fields: Vec::new() };
    let mut q: usize = 0;
    proof {
        assert(out@ =~= spec_project_upto(schema.fields@, 0, rec@));
    }
    while q < schema.fields.len()
        invariant
            0 <= q <= schema.fields@.len(),
            out@ == spec_project_upto(schema.fields@, q as int, rec@),
        decreases schema.fields@.len() - q,
    {
        match crate::models::rec_field_value(rec, &schema.fields[q].name) {
            Some(v) => {
                if !crate::json::rec_fields_contain(&out.fields, &schema.fields[q].name) {
                    let dup = jval_copy(v);
                    let ghost pre = out@;
                    out.fields.push((schema.fields[q].name.clone(), dup));
                    proof {
                        assert(out@ =~= pre.push((schema.fields@[q as int].name@, v@)));
                    }
                }
            },
            None => {},
        }
        q += 1;
    }
    out
}

impl NyroDB {
    /// Index of the model's segment, at the first matching name.
    fn find_storage(&self, model_name: &str) -> (r: Option<usize>)
        ensures
            match r {
                Some(q) => {
                    &&& q < self.storages@.len()
                    &&& self.storages@[q as int].0@ == model_name@
                    &&& forall|i: int|
                        0 <= i < q ==> (#[trigger] self.storages@[i]).0@ != model_name@
                    &&& storages_find(self.storages@, model_name@) == Some(
                        self.storages@[q as int].1,
                    )
                },
                None => storages_find(self.storages@, model_name@) is None,
            },
    {
        let key = model_name.to_owned();
        let mut q: usize = 0;
        proof {
            assert(self.storages@.skip(0) =~= self.storages@);
        }
        while q < self.storages.len()
            invariant
                0 <= q <= self.storages@.len(),
                key@ == model_name@,
                forall|i: int| 0 <= i < q ==> (#[trigger] self.storages@[i]).0@ != model_name@,
                storages_find(self.storages@, model_name@) == storages_find(
                    self.storages@.skip(q as int),
                    model_name@,
                ),
            decreases self.storages@.len() - q,
        {
            proof {
                assert(self.storages@.skip(q as int)[0] == self.storages@[q as int]);
                assert(self.storages@.skip(q as int).drop_first() =~= self.storages@.skip(
                    q as int + 1,
                ));
            }
            if self.storages[q].0.eq(&key) {
                return Some(q);
            }
            q += 1;
        }
        proof {
            assert(self.storages@.skip(self.storages@.len() as int) =~= Seq::<
                (String, LogStorage),
            >::empty());
        }
        None
    }

    /// Validates, projects and stores (or enqueues) one insert with the
    /// given wall-clock timestamp.  Success returns the record's id.
    pub fn insert_at(&mut self, model_name: &str, data: JsonDoc, now_ms: u64) -> (r: Result<
        u64,
        NyroError,
    >)
        requires
            old(self).wf(),
        ensures
            final(self).wf(),
            final(self).config == old(self).config,
            final(self).metrics == old(self).metrics,
            final(self).broadcaster == old(self).broadcaster,
            final(self).shutdown_flag == old(self).shutdown_flag,
            ({
                let mname = model_name@;
                let schema_o = models_lookup(old(self).config.models@, mname);
                match r {
                    Ok(id) => match data {
                        JsonDoc::Object(rec) => {
                            let schema = schema_o->Some_0;
                            let proj = spec_project(schema.fields@, rec@);
                            let payload = ser_envelope(now_ms, 0, ser_record(proj));
                            &&& schema_o is Some
                            &&& first_missing_required(schema.fields@, rec@) is None
                            &&& rec_id(rec@) == Some(id)
                            &&& wf_record(proj)
                            &&& payload.len() <= u32::MAX
                            &&& if old(self).config.performance.batch_size > 1 {
                                &&& final(self).pending@.len() == old(self).pending@.len() + 1
                                &&& forall|i: int|
                                    0 <= i < old(self).pending@.len()
                                        ==> final(self).pending@[i] == old(self).pending@[i]
                                &&& final(self).pending@.last().0@ == mname
                                &&& final(self).pending@.last().1@ == payload
                                &&& final(self).storages == old(self).storages
                            } else {
                                &&& final(self).pending == old(self).pending
                                &&& old(self).spec_history(mname) is Some
                                &&& encode_log(old(self).spec_history(mname)->Some_0).len() + 4
                                    + payload.len() <= u64::MAX
                                &&& final(self).spec_history(mname) == Some(
                                    old(self).spec_history(mname)->Some_0.push(
                                        EntryV { timestamp: now_ms, op: 0, rec: proj },
                                    ),
                                )
                                &&& forall|n: Seq<char>|
                                    n != mname ==> #[trigger] final(self).spec_history(n) == old(self).spec_history(n)
                            }
                        },
                        JsonDoc::Other => false,
                    },
                    Err(e) => {
                        &&& final(self).storages@ == old(self).storages@
                        &&& final(self).pending == old(self).pending
                        &&& match e {
                            NyroError::NotObject => data is Other,
                            NyroError::ModelUnknown(m) => m@ == mname && data is Object
                                && schema_o is None,
                            NyroError::MissingField(f) => match data {
                                JsonDoc::Object(rec) => schema_o is Some
                                    && first_missing_required(schema_o->Some_0.fields@, rec@)
                                    == Some(f@),
                                JsonDoc::Other => false,
                            },
                            NyroError::InvalidId => match data {
                                JsonDoc::Object(rec) => schema_o is Some
                                    && first_missing_required(schema_o->Some_0.fields@, rec@)
                                    is None && rec_id(rec@) is None,
                                JsonDoc::Other => false,
                            },
                            NyroError::CodecFailure => match data {
                                JsonDoc::Object(rec) => {
                                    let proj = spec_project(schema_o->Some_0.fields@, rec@);
                                    &&& schema_o is Some
                                    &&& first_missing_required(schema_o->Some_0.fields@, rec@)
                                        is None
                                    &&& rec_id(rec@) is Some
                                    &&& (!wf_record(proj) || ser_envelope(
                                        now_ms,
                                        0,
                                        ser_record(proj),
                                    ).len() > u32::MAX)
                                },
                                JsonDoc::Other => false,
                            },
                            NyroError::StorageIO => match data {
                                JsonDoc::Object(rec) => {
                                    let proj = spec_project(schema_o->Some_0.fields@, rec@);
                                    &&& schema_o is Some
                                    &&& first_missing_required(schema_o->Some_0.fields@, rec@)
                                        is None
                                    &&& rec_id(rec@) is Some
                                    &&& old(self).config.performance.batch_size <= 1
                                    &&& wf_record(proj)
                                    &&& ser_envelope(now_ms, 0, ser_record(proj)).len()
                                        <= u32::MAX
                                    &&& old(self).spec_history(mname) is Some
                                    &&& encode_log(old(self).spec_history(mname)->Some_0).len()
                                        + 4 + ser_envelope(now_ms, 0, ser_record(proj)).len()
                                        > u64::MAX
                                },
                                JsonDoc::Other => false,
                            },
                        }
                    },
                }
            }),
    {
        let rec = match data {
            JsonDoc::Object(rec) => rec,
            JsonDoc::Other => {
                return Err(NyroError::NotObject);
            },
        };
        let schema = match self.config.get_model_schema(model_name) {
            Some(s) => s,
            None => {
                return Err(NyroError::ModelUnknown(model_name.to_owned()));
            },
        };
        match check_required(schema, &rec) {
            Some(f) => {
                return Err(NyroError::MissingField(f));
            },
            None => {},
        }
        let id = match crate::models::rec_get_id(&rec) {
            Some(id) => id,
            None => {
                return Err(NyroError::InvalidId);
            },
        };
        let proj = project_record(schema, &rec);
        let ghost projv = proj@;
        if !check_record_wf(&proj) {
            return Err(NyroError::CodecFailure);
        }
        let data_bytes = record_to_json(&proj);
        if data_bytes.len() as u64 > u32::MAX as u64 - 17 {
            proof {
                crate::storage::lemma_envelope_len(now_ms, 0, data_bytes@);
            }
            return Err(NyroError::CodecFailure);
        }
        proof {
            crate::storage::lemma_envelope_len(now_ms, 0, data_bytes@);
        }
        let payload = crate::frame::make_payload(now_ms, 0, data_bytes);
        if self.config.performance.batch_size > 1 {
            self.pending.push((model_name.to_owned(), payload));
            Ok(id)
        } else {
            let q = match self.find_storage(model_name) {
                Some(q) => q,
                None => {
                    proof {
                        assert(false);
                    }
                    vstd::pervasive::unreached()
                },
            };
            let ghost ss0 = self.storages@;
            let ghost h0 = ss0[q as int].1.history@;
            proof {
                assert(ss0[q as int].1.wf());
                assert(ss0[q as int].1.log@ == encode_log(h0));
                assert(old(self).spec_history(model_name@) == Some(h0));
            }
            let mut entry = self.storages.remove(q);
            let r2 = entry.1.append(
                LogEntry { timestamp: now_ms, operation: Operation::Insert, data: proj },
            );
            self.storages.insert(q, entry);
            proof {
                assert(self.storages@ =~= ss0.update(
                    q as int,
                    (ss0[q as int].0, self.storages@[q as int].1),
                ));
                assert forall|n: Seq<char>| #[trigger]
                    storages_find(self.storages@, n) == (if n == model_name@ {
                        Some(self.storages@[q as int].1)
                    } else {
                        storages_find(ss0, n)
                    }) by {
                    lemma_storages_find_update(ss0, q as int, self.storages@[q as int].1, n);
                }
                assert forall|i: int|
                    0 <= i < self.storages@.len() implies (#[trigger] self.storages@[i]).1.wf()
                    by {
                    if i != q as int {
                        assert(self.storages@[i] == ss0[i]);
                    }
                }
                assert(storage_names_unique(self.storages@)) by {
                    assert(forall|i: int|
                        0 <= i < ss0.len() ==> (#[trigger] self.storages@[i]).0@ == ss0[i].0@);
                }
            }
            match r2 {
                Ok(_) => {
                    proof {
                        assert(self.storages@[q as int].1.history@ == h0.push(
                            EntryV { timestamp: now_ms, op: 0, rec: projv },
                        ));
                        assert(self.spec_history(model_name@) == Some(
                            h0.push(EntryV { timestamp: now_ms, op: 0, rec: projv }),
                        ));
                    }
                    Ok(id)
                },
                Err(e) => {
                    proof {
                        assert(self.storages@ =~= ss0);
                        assert(e is StorageIO);
                    }
                    Err(e)
                },
            }
        }
    }

    /// Validates and stores one insert, stamping it with the current wall
    /// clock; the sync path also records its latency.  Except for the
    /// timestamp and the latency sample, the effects are those of
    /// `insert_at` at the clock value that was read.
    pub fn insert_raw(&mut self, model_name: &str, data: JsonDoc) -> (r: Result<u64, NyroError>)
        requires
            old(self).wf(),
        ensures
            final(self).wf(),
            final(self).config == old(self).config,
            final(self).broadcaster == old(self).broadcaster,
            final(self).shutdown_flag == old(self).shutdown_flag,
            ({
                let mname = model_name@;
                let schema_o = models_lookup(old(self).config.models@, mname);
                match r {
                    Ok(id) => match data {
                        JsonDoc::Object(rec) => {
                            let schema = schema_o->Some_0;
                            let proj = spec_project(schema.fields@, rec@);
                            &&& schema_o is Some
                            &&& first_missing_required(schema.fields@, rec@) is None
                            &&& rec_id(rec@) == Some(id)
                            &&& wf_record(proj)
                            &&& if old(self).config.performance.batch_size > 1 {
                                &&& final(self).pending@.len() == old(self).pending@.len() + 1
                                &&& forall|i: int|
                                    0 <= i < old(self).pending@.len()
                                        ==> final(self).pending@[i] == old(self).pending@[i]
                                &&& final(self).pending@.last().0@ == mname
                                &&& exists|ts: u64|
                                    final(self).pending@.last().1@ == #[trigger] ser_envelope(
                                        ts,
                                        0,
                                        ser_record(proj),
                                    )
                                &&& final(self).storages == old(self).storages
                                &&& final(self).metrics == old(self).metrics
                            } else {
                                &&& final(self).pending == old(self).pending
                                &&& old(self).spec_history(mname) is Some
                                &&& exists|ts: u64|
                                    final(self).spec_history(mname) == Some(
                                        #[trigger] old(self).spec_history(mname)->Some_0.push(
                                            EntryV { timestamp: ts, op: 0, rec: proj },
                                        ),
                                    )
                                &&& forall|n: Seq<char>|
                                    n != mname ==> #[trigger] final(self).spec_history(n) == old(
                                        self,
                                    ).spec_history(n)
                                &&& if old(self).metrics.enabled {
                                    &&& final(self).metrics.total_inserts == bump(
                                        old(self).metrics.total_inserts,
                                    )
                                    &&& exists|d: u64|
                                        final(self).metrics.insert_times@
                                            == #[trigger] reservoir_push(
                                            old(self).metrics.insert_times@,
                                            d,
                                            old(self).config.metrics.max_samples as int,
                                        )
                                    &&& final(self).metrics.total_gets == old(
                                        self,
                                    ).metrics.total_gets
                                    &&& final(self).metrics.total_queries == old(
                                        self,
                                    ).metrics.total_queries
                                    &&& final(self).metrics.get_times == old(
                                        self,
                                    ).metrics.get_times
                                    &&& final(self).metrics.enabled == old(self).metrics.enabled
                                } else {
                                    final(self).metrics == old(self).metrics
                                }
                            }
                        },
                        JsonDoc::Other => false,
                    },
                    Err(e) => {
                        &&& final(self).storages@ == old(self).storages@
                        &&& final(self).pending == old(self).pending
                        &&& final(self).metrics == old(self).metrics
                        &&& match e {
                            NyroError::NotObject => data is Other,
                            NyroError::ModelUnknown(m) => m@ == mname && data is Object
                                && schema_o is None,
                            NyroError::MissingField(f) => match data {
                                JsonDoc::Object(rec) => schema_o is Some
                                    && first_missing_required(schema_o->Some_0.fields@, rec@)
                                    == Some(f@),
                                JsonDoc::Other => false,
                            },
                            NyroError::InvalidId => match data {
                                JsonDoc::Object(rec) => schema_o is Some
                                    && first_missing_required(schema_o->Some_0.fields@, rec@)
                                    is None && rec_id(rec@) is None,
                                JsonDoc::Other => false,
                            },
                            NyroError::CodecFailure => match data {
                                JsonDoc::Object(rec) => {
                                    let proj = spec_project(schema_o->Some_0.fields@, rec@);
                                    &&& schema_o is Some
                                    &&& first_missing_required(schema_o->Some_0.fields@, rec@)
                                        is None
                                    &&& rec_id(rec@) is Some
                                    &&& (!wf_record(proj) || 17 + ser_record(proj).len()
                                        > u32::MAX)
                                },
                                JsonDoc::Other => false,
                            },
                            NyroError::StorageIO => match data {
                                JsonDoc::Object(rec) => {
                                    let proj = spec_project(schema_o->Some_0.fields@, rec@);
                                    &&& schema_o is Some
                                    &&& first_missing_required(schema_o->Some_0.fields@, rec@)
                                        is None
                                    &&& rec_id(rec@) is Some
                                    &&& old(self).config.performance.batch_size <= 1
                                    &&& wf_record(proj)
                                    &&& 17 + ser_record(proj).len() <= u32::MAX
                                    &&& old(self).spec_history(mname) is Some
                                    &&& encode_log(old(self).spec_history(mname)->Some_0).len()
                                        + 21 + ser_record(proj).len() > u64::MAX
                                },
                                JsonDoc::Other => false,
                            },
                        }
                    },
                }
            }),
    {
        let t0 = now_nanos();
        let now = now_millis();
        let ghost gdata = data;
        let r = self.insert_at(model_name, data, now);
        let ghost s1 = *self;
        if self.config.performance.batch_size <= 1 && r.is_ok() {
            let t1 = now_nanos();
            let elapsed = if t1 >= t0 {
                t1 - t0
            } else {
                0
            };
            self.metrics.record_insert(elapsed, self.config.metrics.max_samples);
            proof {
                if old(self).metrics.enabled {
                    assert(self.metrics.insert_times@ == reservoir_push(
                        old(self).metrics.insert_times@,
                        elapsed,
                        old(self).config.metrics.max_samples as int,
                    ));
                }
            }
        }
        proof {
            assert(self.storages@ == s1.storages@);
            assert(self.pending == s1.pending);
            match gdata {
                JsonDoc::Object(rec) => {
                    if models_lookup(old(self).config.models@, model_name@) is Some {
                        let schema = models_lookup(
                            old(self).config.models@,
                            model_name@,
                        )->Some_0;
                        let proj = spec_project(schema.fields@, rec@);
                        crate::storage::lemma_envelope_len(now, 0, ser_record(proj));
                    }
                },
                JsonDoc::Other => {},
            }
            if r is Ok {
                match gdata {
                    JsonDoc::Object(rec) => {
                        let schema = models_lookup(
                            old(self).config.models@,
                            model_name@,
                        )->Some_0;
                        let proj = spec_project(schema.fields@, rec@);
                        if old(self).config.performance.batch_size > 1 {
                            assert(self.pending@.last().1@ == ser_envelope(
                                now,
                                0,
                                ser_record(proj),
                            ));
                        } else {
                            assert(s1.spec_history(model_name@) == Some(
                                old(self).spec_history(model_name@)->Some_0.push(
                                    EntryV { timestamp: now, op: 0, rec: proj },
                                ),
                            ));
                            assert(self.spec_history(model_name@) == hist_of(
                                self.storages@,
                                model_name@,
                            ));
                            assert(s1.spec_history(model_name@) == hist_of(
                                s1.storages@,
                                model_name@,
                            ));
                            assert forall|n: Seq<char>| n != model_name@ implies #[trigger]
                                self.spec_history(n) == old(self).spec_history(n) by {
                                assert(s1.spec_history(n) == old(self).spec_history(n));
                                assert(self.spec_history(n) == hist_of(self.storages@, n));
                                assert(s1.spec_history(n) == hist_of(s1.storages@, n));
                            }
                        }
                    },
                    JsonDoc::Other => {},
                }
            }
        }
        r
    }

    /// Reads a record by id; `None` when the id is not indexed.
    pub fn get_raw(&mut self, model_name: &str, id: u64) -> (r: Result<Option<Record>, NyroError>)
        requires
            old(self).wf(),
        ensures
            final(self).wf(),
            final(self).storages == old(self).storages,
            final(self).pending == old(self).pending,
            final(self).config == old(self).config,
            final(self).broadcaster == old(self).broadcaster,
            ({
                let hist_o = old(self).spec_history(model_name@);
                match r {
                    Ok(ro) => {
                        &&& hist_o is Some
                        &&& match ro {
                            Some(rec) => spec_latest_entry(hist_o->Some_0, id) is Some
                                && rec@ == spec_latest_entry(hist_o->Some_0, id)->Some_0.rec,
                            None => spec_latest_entry(hist_o->Some_0, id) is None,
                        }
                        &&& if old(self).metrics.enabled {
                            &&& final(self).metrics.total_gets == bump(
                                old(self).metrics.total_gets,
                            )
                            &&& exists|d: u64|
                                final(self).metrics.get_times@ == #[trigger] reservoir_push(
                                    old(self).metrics.get_times@,
                                    d,
                                    old(self).config.metrics.max_samples as int,
                                )
                            &&& final(self).metrics.total_inserts == old(
                                self,
                            ).metrics.total_inserts
                            &&& final(self).metrics.total_queries == old(
                                self,
                            ).metrics.total_queries
                            &&& final(self).metrics.insert_times == old(
                                self,
                            ).metrics.insert_times
                            &&& final(self).metrics.enabled == old(self).metrics.enabled
                        } else {
                            final(self).metrics == old(self).metrics
                        }
                    },
                    Err(e) => {
                        &&& e matches NyroError::ModelUnknown(m) && m@ == model_name@
                            && hist_o is None
                        &&& final(self).metrics == old(self).metrics
                    },
                }
            }),
    {
        let t0 = now_nanos();
        let q = match self.find_storage(model_name) {
            Some(q) => q,
            None => {
                return Err(NyroError::ModelUnknown(model_name.to_owned()));
            },
        };
        let result = match self.storages[q].1.get(id) {
            Some(entry) => Some(entry.data),
            None => None,
        };
        let t1 = now_nanos();
        let elapsed = if t1 >= t0 {
            t1 - t0
        } else {
            0
        };
        self.metrics.record_get(elapsed, self.config.metrics.max_samples);
        proof {
            if old(self).metrics.enabled {
                assert(self.metrics.get_times@ == reservoir_push(
                    old(self).metrics.get_times@,
                    elapsed,
                    old(self).config.metrics.max_samples as int,
                ));
            }
        }
        Ok(result)
    }

    /// Reads every indexed record of a model; order is unspecified.
    #[verifier::loop_isolation(false)]
    pub fn query_raw(&mut self, model_name: &str) -> (r: Result<Vec<Record>, NyroError>)
        requires
            old(self).wf(),
        ensures
            final(self).wf(),
            final(self).storages == old(self).storages,
            final(self).pending == old(self).pending,
            final(self).config == old(self).config,
            final(self).broadcaster == old(self).broadcaster,
            ({
                let hist_o = old(self).spec_history(model_name@);
                match r {
                    Ok(rs) => {
                        &&& hist_o is Some
                        &&& forall|i: int|
                            0 <= i < rs@.len() ==> is_latest_of_some(
                                hist_o->Some_0,
                                (#[trigger] rs@[i])@,
                            )
                        &&& covers_all_latest(
                            hist_o->Some_0,
                            rs@.map(|i: int, rec: Record| rec@),
                        )
                        &&& exists|ids: Seq<u64>|
                            listed_by_distinct_ids(hist_o->Some_0, rs@, ids)
                        &&& if old(self).metrics.enabled {
                            &&& final(self).metrics.total_queries == bump(
                                old(self).metrics.total_queries,
                            )
                            &&& final(self).metrics.total_inserts == old(
                                self,
                            ).metrics.total_inserts
                            &&& final(self).metrics.total_gets == old(self).metrics.total_gets
                            &&& final(self).metrics.insert_times == old(
                                self,
                            ).metrics.insert_times
                            &&& final(self).metrics.get_times == old(self).metrics.get_times
                            &&& final(self).metrics.enabled == old(self).metrics.enabled
                        } else {
                            final(self).metrics == old(self).metrics
                        }
                    },
                    Err(e) => {
                        &&& e matches NyroError::ModelUnknown(m) && m@ == model_name@
                            && hist_o is None
                        &&& final(self).metrics == old(self).metrics
                    },
                }
            }),
    {
        let q = match self.find_storage(model_name) {
            Some(q) => q,
            None => {
                return Err(NyroError::ModelUnknown(model_name.to_owned()));
            },
        };
        let entries = self.storages[q].1.get_all();
        let ghost st = self.storages@[q as int].1;
        let mut out: Vec<Record> = Vec::new();
        let mut w: usize = 0;
        while w < entries.len()
            invariant
                0 <= w <= entries@.len(),
                out@.len() == w,
                forall|i: int|
                    0 <= i < entries@.len() ==> {
                        &&& spec_latest_entry(st.history@, st.index.key_seq()[i]) is Some
                        &&& (#[trigger] entries@[i]).data@ == spec_latest_entry(
                            st.history@,
                            st.index.key_seq()[i],
                        )->Some_0.rec
                    },
                entries@.len() == st.index.key_seq().len(),
                forall|i: int|
                    0 <= i < w ==> is_latest_of_some(st.history@, (#[trigger] out@[i])@),
                forall|i: int| 0 <= i < w ==> (#[trigger] out@[i])@ == entries@[i].data@,
            decreases entries@.len() - w,
        {
            let e = entries[w].data_clone();
            proof {
                let gid = st.index.key_seq()[w as int];
                assert(spec_latest_entry(st.history@, gid) is Some && e@ == spec_latest_entry(
                    st.history@,
                    gid,
                )->Some_0.rec);
                assert(is_latest_of_some(st.history@, e@));
            }
            out.push(e);
            w += 1;
        }
        proof {
            assert(old(self).spec_history(model_name@) == Some(st.history@));
            assert forall|id: u64| spec_latest_entry(st.history@, id) is Some implies exists|
                i: int,
            |
                0 <= i < out@.len() && (#[trigger] out@[i])@ == spec_latest_entry(
                    st.history@,
                    id,
                )->Some_0.rec by {
                assert(crate::storage::spec_primary(st.history@, id) is Some);
                assert(st.index.key_seq().contains(id));
                let i = choose|i: int|
                    0 <= i < st.index.key_seq().len() && st.index.key_seq()[i] == id;
                assert(entries@[i].data@ == spec_latest_entry(st.history@, id)->Some_0.rec);
                assert(out@[i]@ == spec_latest_entry(st.history@, id)->Some_0.rec);
            }
            assert(listed_by_distinct_ids(st.history@, out@, st.index.key_seq())) by {
                assert(out@.len() == st.index.key_seq().len());
                assert forall|i: int| 0 <= i < st.index.key_seq().len() implies
                    spec_latest_entry(st.history@, #[trigger] st.index.key_seq()[i]) is Some
                        && out@[i]@ == spec_latest_entry(
                        st.history@,
                        st.index.key_seq()[i],
                    )->Some_0.rec by {
                    assert(out@[i]@ == entries@[i].data@);
                }
            }
            assert(covers_all_latest(st.history@, out@.map(|i: int, rec: Record| rec@)))
                by {
                let rsv = out@.map(|i: int, rec: Record| rec@);
                assert forall|id: u64|
                    #![trigger spec_latest_entry(st.history@, id)]
                    spec_latest_entry(st.history@, id) is Some implies exists|i: int|
                    0 <= i < rsv.len() && rsv[i] == spec_latest_entry(
                        st.history@,
                        id,
                    )->Some_0.rec by {
                    assert(crate::storage::spec_primary(st.history@, id) is Some);
                    assert(st.index.key_seq().contains(id));
                    let i = choose|i: int|
                        0 <= i < st.index.key_seq().len() && st.index.key_seq()[i] == id;
                    assert(out@[i]@ == spec_latest_entry(st.history@, id)->Some_0.rec);
                    assert(rsv[i] == out@[i]@);
                }
            }
        }
        self.metrics.record_query();
        Ok(out)
    }
}

impl LogEntry<Record> {
    /// A copy of the carried record that provably preserves its view.
    pub fn data_clone(&self) -> (r: Record)
        ensures
            r@ == self.data@,
    {
        let mut fields: Vec<(String, JsonVal)> = Vec::new();
        let mut q: usize = 0;
        while q < self.data.fields.len()
            invariant
                0 <= q <= self.data.fields@.len(),
                crate::models::rec_view(fields@) == self.data@.take(q as int),
            decreases self.data.fields@.len() - q,
        {
            let v = jval_copy(&self.data.fields[q].1);
            let ghost pre = crate::models::rec_view(fields@);
            fields.push((self.data.fields[q].0.clone(), v));
            proof {
                assert(crate::models::rec_view(fields@) =~= pre.push(
                    (self.data.fields@[q as int].0@, self.data.fields@[q as int].1@),
                ));
                assert(self.data@.take(q as int + 1) =~= self.data@.take(q as int).push(
                    self.data@[q as int],
                ));
                assert(self.data@[q as int] == (
                    self.data.fields@[q as int].0@,
                    self.data.fields@[q as int].1@,
                ));
            }
            q += 1;
        }
        proof {
            assert(self.data@.take(self.data@.len() as int) =~= self.data@);
        }
        Record { fields: fields }
    }
}

} // verus!

verus! {

// ---------------------------------------------------------------------------
// The batch pipeline
//
// Inserts on the batch path enqueue a serialized payload.  Draining decodes
// each payload in arrival order and hands it to its model's segment; one
// bad item is dropped and the rest of the batch continues.  Each successful
// append publishes one change event.  Per-model effects are exactly those
// of processing the queue grouped by model, since items of different models
// touch disjoint segments.
// ---------------------------------------------------------------------------

pub type PendV = Seq<(Seq<char>, Seq<u8>)>;

pub open spec fn pend_view(p: Seq<(String, Vec<u8>)>) -> PendV {
    p.map(|i: int, q: (String, Vec<u8>)| (q.0@, q.1@))
}

/// The queued payloads destined for one model, in arrival order.
pub open spec fn items_for(pv: PendV, m: Seq<char>) -> Seq<Seq<u8>>
    decreases pv.len(),
{
    if pv.len() == 0 {
        Seq::<Seq<u8>>::empty()
    } else {
        items_for(pv.drop_last(), m) + (if pv.last().0 == m {
            seq![pv.last().1]
        } else {
            Seq::<Seq<u8>>::empty()
        })
    }
}

/// The entry a queued payload stores: its decoded form, with the operation
/// byte normalized through the operation tags.
pub open spec fn queued_entry(p: Seq<u8>) -> Option<EntryV> {
    match parse_payload(p) {
        Some(e) => Some(
            EntryV { timestamp: e.timestamp, op: spec_op_byte(spec_byte_op(e.op)), rec: e.rec },
        ),
        None => None,
    }
}

/// Whether a payload of this size still fits the frame header and the
/// offset counter on top of history `h`.
pub open spec fn fits(h: Seq<EntryV>, p: Seq<u8>) -> bool {
    &&& p.len() <= u32::MAX
    &&& encode_log(h).len() + 4 + p.len() <= u64::MAX
}

/// One queue item applied to its model's history.
pub open spec fn apply_one(h: Seq<EntryV>, p: Seq<u8>) -> Seq<EntryV> {
    match queued_entry(p) {
        Some(e) => if fits(h, p) {
            h.push(e)
        } else {
            h
        },
        None => h,
    }
}

/// A run of queue items applied to one model's history, in order.
pub open spec fn apply_items(h: Seq<EntryV>, items: Seq<Seq<u8>>) -> Seq<EntryV>
    decreases items.len(),
{
    if items.len() == 0 {
        h
    } else {
        apply_one(apply_items(h, items.drop_last()), items.last())
    }
}

/// The model's history just before queue item `j` is processed.
pub open spec fn hist_before(
    ss0: Seq<(String, LogStorage)>,
    pv: PendV,
    j: int,
    m: Seq<char>,
) -> Option<Seq<EntryV>> {
    match storages_find(ss0, m) {
        Some(st) => Some(apply_items(st.history@, items_for(pv.take(j), m))),
        None => None,
    }
}

/// The entry appended by queue item `j`, when it decodes, its model
/// exists, and it fits.
pub open spec fn item_appended(ss0: Seq<(String, LogStorage)>, pv: PendV, j: int) -> Option<
    EntryV,
> {
    match hist_before(ss0, pv, j, pv[j].0) {
        Some(h) => match queued_entry(pv[j].1) {
            Some(e) => if fits(h, pv[j].1) {
                Some(e)
            } else {
                None
            },
            None => None,
        },
        None => None,
    }
}

/// The broadcast text of one stored insert: `INSERT:<model>:<json>`.
pub open spec fn event_of(model: Seq<char>, e: EntryV) -> Seq<u8> {
    seq![73u8, 78u8, 83u8, 69u8, 82u8, 84u8, 58u8] + vstd::utf8::encode_utf8(model) + seq![58u8]
        + ser_record(e.rec)
}

/// The events published while processing the first `j` queue items.
pub open spec fn batch_events(ss0: Seq<(String, LogStorage)>, pv: PendV, j: int) -> Seq<Seq<u8>>
    decreases j,
{
    if j <= 0 || j > pv.len() {
        Seq::<Seq<u8>>::empty()
    } else {
        batch_events(ss0, pv, j - 1) + (match item_appended(ss0, pv, j - 1) {
            Some(e) => seq![event_of(pv[j - 1].0, e)],
            None => Seq::<Seq<u8>>::empty(),
        })
    }
}

/// A run of ring pushes.
pub open spec fn fold_push(q: Seq<Seq<u8>>, evs: Seq<Seq<u8>>, cap: int) -> Seq<Seq<u8>>
    decreases evs.len(),
{
    if evs.len() == 0 {
        q
    } else {
        ring_push(fold_push(q, evs.drop_last(), cap), evs.last(), cap)
    }
}

/// A run of saturating counter bumps.
pub open spec fn bumpn(c: u64, n: int) -> u64
    decreases n,
{
    if n <= 0 {
        c
    } else {
        bump(bumpn(c, n - 1))
    }
}

impl NyroDB {
    /// Whether the queue has reached the configured batch size.
    pub fn batch_ready(&self) -> (r: bool)
        ensures
            r == (self.pending@.len() >= self.config.performance.batch_size),
    {
        self.pending.len() >= self.config.performance.batch_size
    }

    /// Processes one queued item: decodes it and appends it to its model's
    /// segment, publishing one change event on success; a bad item changes
    /// nothing.
    #[verifier::rlimit(100)]
    fn process_one(&mut self, j: usize)
        requires
            old(self).wf(),
            j < old(self).pending@.len(),
        ensures
            final(self).wf(),
            final(self).pending == old(self).pending,
            final(self).config == old(self).config,
            final(self).shutdown_flag == old(self).shutdown_flag,
            final(self).storages@.len() == old(self).storages@.len(),
            forall|i: int|
                0 <= i < old(self).storages@.len() ==> (#[trigger] final(self).storages@[i]).0
                    == old(self).storages@[i].0 && final(self).storages@[i].1.flushed == old(self).storages@[i].1.flushed,
            final(self).broadcaster.capacity == old(self).broadcaster.capacity,
            final(self).broadcaster.subscribers@.len() == old(self).broadcaster.subscribers@.len(),
            final(self).metrics.total_gets == old(self).metrics.total_gets,
            final(self).metrics.total_queries == old(self).metrics.total_queries,
            final(self).metrics.get_times == old(self).metrics.get_times,
            final(self).metrics.enabled == old(self).metrics.enabled,
            ({
                let m0 = old(self).pending@[j as int].0@;
                let p0 = old(self).pending@[j as int].1@;
                match hist_of(old(self).storages@, m0) {
                    Some(h) => match queued_entry(p0) {
                        Some(e) => if fits(h, p0) {
                            &&& forall|m: Seq<char>| #[trigger]
                                final(self).spec_history(m) == (if m == m0 {
                                    Some(h.push(e))
                                } else {
                                    old(self).spec_history(m)
                                })
                            &&& forall|s: int|
                                0 <= s < old(self).broadcaster.subscribers@.len()
                                    ==> #[trigger] final(self).broadcaster.ring_of(s)
                                    == ring_push(
                                    old(self).broadcaster.ring_of(s),
                                    event_of(m0, e),
                                    old(self).broadcaster.capacity as int,
                                )
                            &&& final(self).metrics.total_inserts == (if old(self).metrics.enabled {
                                bumpn(old(self).metrics.total_inserts, 2)
                            } else {
                                old(self).metrics.total_inserts
                            })
                        } else {
                            batch_item_noop(old(self), final(self))
                        },
                        None => batch_item_noop(old(self), final(self)),
                    },
                    None => batch_item_noop(old(self), final(self)),
                }
            }),
    {
        let ghost m0 = old(self).pending@[j as int].0@;
        let ghost p0 = old(self).pending@[j as int].1@;
        let model = self.pending[j].0.clone();
        match self.find_storage(model.as_str()) {
            None => {
                crate::logger::Logger::warn_with_config(
                    &self.config.logging,
                    "Storage for model not found during batch processing. Entry dropped.",
                );
                proof {
                    assert(hist_of(old(self).storages@, m0) is None);
                }
            },
            Some(q) => {
                let decoded = crate::frame::decode_payload(&self.pending[j].1);
                match decoded {
                    None => {
                        crate::logger::Logger::error_with_config(
                            &self.config.logging,
                            "Failed to decode batch entry. Entry dropped.",
                        );
                        proof {
                            assert(queued_entry(p0) is None);
                        }
                    },
                    Some((ts, opb, rec)) => {
                        let t0 = now_nanos();
                        let ghost e2 = EntryV {
                            timestamp: ts,
                            op: spec_op_byte(spec_byte_op(opb)),
                            rec: rec@,
                        };
                        proof {
                            crate::frame::lemma_payload_canon(p0);
                            crate::storage::lemma_envelope_len(ts, opb, ser_record(rec@));
                            crate::storage::lemma_envelope_len(
                                ts,
                                spec_op_byte(spec_byte_op(opb)),
                                ser_record(rec@),
                            );
                            assert(queued_entry(p0) == Some(e2));
                            assert(entry_payload(e2).len() == p0.len());
                        }
                        let data_bytes = record_to_json(&rec);
                        let mut event: Vec<u8> = Vec::new();
                        event.push(73);
                        event.push(78);
                        event.push(83);
                        event.push(69);
                        event.push(82);
                        event.push(84);
                        event.push(58);
                        let mut mb = model.as_str().as_bytes_vec();
                        event.append(&mut mb);
                        event.push(58);
                        let mut db = data_bytes;
                        event.append(&mut db);
                        proof {
                            assert(event@ =~= event_of(m0, e2));
                        }
                        let ghost ss0 = self.storages@;
                        let ghost h0 = ss0[q as int].1.history@;
                        proof {
                            assert(ss0[q as int].1.wf());
                            assert(ss0[q as int].1.log@ == encode_log(h0));
                            assert(hist_of(ss0, m0) == Some(h0));
                        }
                        let mut entry = self.storages.remove(q);
                        let r2 = entry.1.append(
                            LogEntry {
                                timestamp: ts,
                                operation: crate::models::byte_op(opb),
                                data: rec,
                            },
                        );
                        self.storages.insert(q, entry);
                        proof {
                            assert(self.storages@ =~= ss0.update(
                                q as int,
                                (ss0[q as int].0, self.storages@[q as int].1),
                            ));
                            assert forall|m2: Seq<char>| #[trigger]
                                storages_find(self.storages@, m2) == (if m2 == m0 {
                                    Some(self.storages@[q as int].1)
                                } else {
                                    storages_find(ss0, m2)
                                }) by {
                                lemma_storages_find_update(
                                    ss0,
                                    q as int,
                                    self.storages@[q as int].1,
                                    m2,
                                );
                            }
                            assert forall|i: int|
                                0 <= i < self.storages@.len() implies (
                            #[trigger] self.storages@[i]).1.wf() by {
                                if i != q as int {
                                    assert(self.storages@[i] == ss0[i]);
                                }
                            }
                            assert(storage_names_unique(self.storages@)) by {
                                assert(forall|i: int|
                                    0 <= i < ss0.len() ==> (#[trigger] self.storages@[i]).0@
                                        == ss0[i].0@);
                            }
                        }
                        match r2 {
                            Ok(_) => {
                                proof {
                                    assert(fits(h0, p0));
                                    assert(self.storages@[q as int].1.history@ == h0.push(e2));
                                }
                                self.metrics.record_batch_insert();
                                let t1 = now_nanos();
                                let elapsed = if t1 >= t0 {
                                    t1 - t0
                                } else {
                                    0
                                };
                                self.metrics.record_insert(elapsed, 1000);
                                self.broadcaster.publish(&event);
                                proof {
                                    let oi = old(self).metrics.total_inserts;
                                    assert(bumpn(oi, 0) == oi);
                                    assert(bumpn(oi, 1) == bump(bumpn(oi, 0)));
                                    assert(bumpn(oi, 2) == bump(bumpn(oi, 1)));
                                    assert forall|m: Seq<char>| #[trigger]
                                        self.spec_history(m) == (if m == m0 {
                                            Some(h0.push(e2))
                                        } else {
                                            old(self).spec_history(m)
                                        }) by {
                                        if m != m0 {
                                            assert(storages_find(self.storages@, m)
                                                == storages_find(ss0, m));
                                        }
                                    }
                                }
                            },
                            Err(_dropped) => {
                                crate::logger::Logger::error_with_config(
                                    &self.config.logging,
                                    "Failed to append batch entry to storage. Entry dropped.",
                                );
                                proof {
                                    assert(self.storages@ =~= ss0);
                                    assert(!fits(h0, p0));
                                }
                            },
                        }
                    },
                }
            },
        }
    }

    /// Drains the queue: every item is decoded and appended to its model's
    /// segment, bad items are dropped, and one change event is published
    /// per stored insert.
    #[verifier::loop_isolation(false)]
    #[verifier::rlimit(100)]
    pub fn process_batch(&mut self)
        requires
            old(self).wf(),
        ensures
            final(self).wf(),
            final(self).pending@.len() == 0,
            final(self).config == old(self).config,
            final(self).shutdown_flag == old(self).shutdown_flag,
            final(self).storages@.len() == old(self).storages@.len(),
            forall|i: int|
                0 <= i < old(self).storages@.len() ==> (#[trigger] final(self).storages@[i]).0
                    == old(self).storages@[i].0 && final(self).storages@[i].1.flushed == old(self).storages@[i].1.flushed,
            forall|m: Seq<char>| #[trigger]
                final(self).spec_history(m) == (match old(self).spec_history(m) {
                    Some(h) => Some(apply_items(h, items_for(pend_view(old(self).pending@), m))),
                    None => None::<Seq<EntryV>>,
                }),
            final(self).broadcaster.capacity == old(self).broadcaster.capacity,
            final(self).broadcaster.subscribers@.len() == old(self).broadcaster.subscribers@.len(),
            forall|s: int|
                0 <= s < old(self).broadcaster.subscribers@.len() ==> #[trigger] final(self).broadcaster.ring_of(s) == fold_push(
                    old(self).broadcaster.ring_of(s),
                    batch_events(
                        old(self).storages@,
                        pend_view(old(self).pending@),
                        old(self).pending@.len() as int,
                    ),
                    old(self).broadcaster.capacity as int,
                ),
            final(self).metrics.total_inserts == (if old(self).metrics.enabled {
                bumpn(
                    old(self).metrics.total_inserts,
                    2 * batch_events(
                        old(self).storages@,
                        pend_view(old(self).pending@),
                        old(self).pending@.len() as int,
                    ).len() as int,
                )
            } else {
                old(self).metrics.total_inserts
            }),
            final(self).metrics.total_gets == old(self).metrics.total_gets,
            final(self).metrics.total_queries == old(self).metrics.total_queries,
            final(self).metrics.get_times == old(self).metrics.get_times,
            final(self).metrics.enabled == old(self).metrics.enabled,
    {
        let ghost ss0 = old(self).storages@;
        let ghost pv = pend_view(old(self).pending@);
        let ghost cap = self.broadcaster.capacity as int;
        let n = self.pending.len();
        let mut j: usize = 0;
        proof {
            assert(pv.take(0) =~= Seq::<(Seq<char>, Seq<u8>)>::empty());
            assert forall|m: Seq<char>| #[trigger]
                self.spec_history(m) == (match old(self).spec_history(m) {
                    Some(h) => Some(apply_items(h, items_for(pv.take(0), m))),
                    None => None::<Seq<EntryV>>,
                }) by {
                assert(items_for(pv.take(0), m) == Seq::<Seq<u8>>::empty());
            }
        }
        while j < n
            invariant
                0 <= j <= n,
                self.wf(),
                self.pending == old(self).pending,
                self.config == old(self).config,
                self.shutdown_flag == old(self).shutdown_flag,
                self.storages@.len() == ss0.len(),
                forall|i: int|
                    0 <= i < ss0.len() ==> (#[trigger] self.storages@[i]).0 == ss0[i].0
                        && self.storages@[i].1.flushed == ss0[i].1.flushed,
                forall|m: Seq<char>| #[trigger]
                    self.spec_history(m) == (match old(self).spec_history(m) {
                        Some(h) => Some(apply_items(h, items_for(pv.take(j as int), m))),
                        None => None::<Seq<EntryV>>,
                    }),
                self.broadcaster.capacity as int == cap,
                self.broadcaster.subscribers@.len() == old(self).broadcaster.subscribers@.len(),
                forall|s: int|
                    0 <= s < old(self).broadcaster.subscribers@.len()
                        ==> #[trigger] self.broadcaster.ring_of(s) == fold_push(
                        old(self).broadcaster.ring_of(s),
                        batch_events(ss0, pv, j as int),
                        cap,
                    ),
                self.metrics.total_inserts == (if old(self).metrics.enabled {
                    bumpn(
                        old(self).metrics.total_inserts,
                        2 * batch_events(ss0, pv, j as int).len() as int,
                    )
                } else {
                    old(self).metrics.total_inserts
                }),
                self.metrics.total_gets == old(self).metrics.total_gets,
                self.metrics.total_queries == old(self).metrics.total_queries,
                self.metrics.get_times == old(self).metrics.get_times,
                self.metrics.enabled == old(self).metrics.enabled,
            decreases n - j,
        {
            let ghost jj = j as int;
            let ghost pre = *self;
            proof {
                assert(pv[jj] == (self.pending@[jj].0@, self.pending@[jj].1@));
                assert forall|m: Seq<char>| #[trigger]
                    items_for(pv.take(jj + 1), m) == items_for(pv.take(jj), m) + (if pv[jj].0
                        == m {
                        seq![pv[jj].1]
                    } else {
                        Seq::<Seq<u8>>::empty()
                    }) by {
                    assert(pv.take(jj + 1).drop_last() =~= pv.take(jj));
                    assert(pv.take(jj + 1).last() == pv[jj]);
                }
            }
            self.process_one(j);
            proof {
                let m0 = pv[jj].0;
                let p0 = pv[jj].1;
                lemma_batch_step(ss0, pv, jj);
                assert(pre.spec_history(m0) == hist_before(ss0, pv, jj, m0));
                let appended = item_appended(ss0, pv, jj);
                if appended is Some {
                    let e = appended->Some_0;
                    let hpre = pre.spec_history(m0)->Some_0;
                    assert forall|m: Seq<char>| #[trigger]
                        self.spec_history(m) == (match old(self).spec_history(m) {
                            Some(h) => Some(apply_items(h, items_for(pv.take(jj + 1), m))),
                            None => None::<Seq<EntryV>>,
                        }) by {
                        if m == m0 {
                            let hm = old(self).spec_history(m)->Some_0;
                            assert(items_for(pv.take(jj + 1), m) =~= items_for(
                                pv.take(jj),
                                m,
                            ).push(p0));
                            lemma_apply_items_snoc(hm, items_for(pv.take(jj), m), p0);
                            assert(self.spec_history(m) == Some(hpre.push(e)));
                        } else {
                            assert(items_for(pv.take(jj + 1), m) =~= items_for(
                                pv.take(jj),
                                m,
                            ));
                            assert(self.spec_history(m) == pre.spec_history(m));
                        }
                    }
                    assert(batch_events(ss0, pv, jj + 1) =~= batch_events(ss0, pv, jj).push(
                        event_of(m0, e),
                    ));
                    assert forall|s2: int|
                        0 <= s2 < old(self).broadcaster.subscribers@.len()
                            implies #[trigger] self.broadcaster.ring_of(s2) == fold_push(
                            old(self).broadcaster.ring_of(s2),
                            batch_events(ss0, pv, jj + 1),
                            cap,
                        ) by {
                        assert(batch_events(ss0, pv, jj + 1).drop_last() =~= batch_events(
                            ss0,
                            pv,
                            jj,
                        ));
                        assert(self.broadcaster.ring_of(s2) == ring_push(
                            pre.broadcaster.ring_of(s2),
                            event_of(m0, e),
                            cap,
                        ));
                    }
                    if old(self).metrics.enabled {
                        lemma_bumpn_add(
                            old(self).metrics.total_inserts,
                            2 * batch_events(ss0, pv, jj).len() as int,
                            2,
                        );
                    }
                } else {
                    assert(batch_item_noop(&pre, self));
                    assert forall|m: Seq<char>| #[trigger]
                        self.spec_history(m) == (match old(self).spec_history(m) {
                            Some(h) => Some(apply_items(h, items_for(pv.take(jj + 1), m))),
                            None => None::<Seq<EntryV>>,
                        }) by {
                        assert(self.spec_history(m) == pre.spec_history(m));
                        if m == m0 {
                            if old(self).spec_history(m) is Some {
                                let hm = old(self).spec_history(m)->Some_0;
                                assert(items_for(pv.take(jj + 1), m) =~= items_for(
                                    pv.take(jj),
                                    m,
                                ).push(p0));
                                lemma_apply_items_snoc(hm, items_for(pv.take(jj), m), p0);
                                assert(apply_one(
                                    apply_items(hm, items_for(pv.take(jj), m)),
                                    p0,
                                ) == apply_items(hm, items_for(pv.take(jj), m)));
                            }
                        } else {
                            assert(items_for(pv.take(jj + 1), m) =~= items_for(
                                pv.take(jj),
                                m,
                            ));
                        }
                    }
                    assert(batch_events(ss0, pv, jj + 1) == batch_events(ss0, pv, jj));
                }
            }
            j += 1;
        }
        let ghost ssend = self.storages@;
        proof {
            assert(pv.take(n as int) =~= pv);
            assert forall|m: Seq<char>| #[trigger]
                hist_of(ssend, m) == (match old(self).spec_history(m) {
                    Some(h) => Some(apply_items(h, items_for(pv, m))),
                    None => None::<Seq<EntryV>>,
                }) by {
                assert(self.spec_history(m) == (match old(self).spec_history(m) {
                    Some(h) => Some(apply_items(h, items_for(pv.take(n as int), m))),
                    None => None::<Seq<EntryV>>,
                }));
                assert(items_for(pv.take(n as int), m) == items_for(pv, m));
            }
        }
        self.pending.clear();
        proof {
            assert(self.storages@ == ssend);
            assert forall|m: Seq<char>| #[trigger]
                self.spec_history(m) == (match old(self).spec_history(m) {
                    Some(h) => Some(apply_items(h, items_for(pv, m))),
                    None => None::<Seq<EntryV>>,
                }) by {
                assert(self.spec_history(m) == hist_of(ssend, m));
            }
            assert forall|name: Seq<char>|
                (#[trigger] storages_find(self.storages@, name) is Some) <==> (models_lookup(
                    self.config.models@,
                    name,
                ) is Some) by {
                assert(self.spec_history(name) == (match old(self).spec_history(name) {
                    Some(h) => Some(apply_items(h, items_for(pv, name))),
                    None => None::<Seq<EntryV>>,
                }));
                assert((storages_find(self.storages@, name) is Some) == (self.spec_history(
                    name,
                ) is Some));
                assert((storages_find(old(self).storages@, name) is Some) == (old(self).spec_history(name) is Some));
            }
        }
    }
}

/// A batch item that changed nothing: histories, rings and insert counters
/// are all as before.
pub open spec fn batch_item_noop(pre: &NyroDB, post: &NyroDB) -> bool {
    &&& forall|m: Seq<char>| #[trigger] post.spec_history(m) == pre.spec_history(m)
    &&& forall|s: int|
        0 <= s < pre.broadcaster.subscribers@.len() ==> #[trigger] post.broadcaster.ring_of(s)
            == pre.broadcaster.ring_of(s)
    &&& post.metrics.total_inserts == pre.metrics.total_inserts
}

/// Saturating bump runs compose.
pub proof fn lemma_bumpn_add(c: u64, a: int, b: int)
    requires
        a >= 0,
        b >= 0,
    ensures
        bumpn(bumpn(c, a), b) == bumpn(c, a + b),
    decreases b,
{
    if b > 0 {
        lemma_bumpn_add(c, a, b - 1);
    }
}

pub proof fn lemma_apply_items_snoc(h: Seq<EntryV>, items: Seq<Seq<u8>>, p: Seq<u8>)
    ensures
        apply_items(h, items.push(p)) == apply_one(apply_items(h, items), p),
{
    assert(items.push(p).drop_last() =~= items);
    assert(items.push(p).last() == p);
}

/// One batch step leaves the events of earlier steps in place.
pub proof fn lemma_batch_step(ss0: Seq<(String, LogStorage)>, pv: PendV, j: int)
    requires
        0 <= j < pv.len(),
    ensures
        batch_events(ss0, pv, j + 1) == batch_events(ss0, pv, j) + (match item_appended(
            ss0,
            pv,
            j,
        ) {
            Some(e) => seq![event_of(pv[j].0, e)],
            None => Seq::<Seq<u8>>::empty(),
        }),
        item_appended(ss0, pv, j) is None ==> batch_events(ss0, pv, j + 1) == batch_events(
            ss0,
            pv,
            j,
        ),
{
    if item_appended(ss0, pv, j) is None {
        assert(batch_events(ss0, pv, j + 1) =~= batch_events(ss0, pv, j) + Seq::<
            Seq<u8>,
        >::empty());
        assert(batch_events(ss0, pv, j) + Seq::<Seq<u8>>::empty() =~= batch_events(ss0, pv, j));
    }
}

} // verus!

verus! {

/// The data of the latest entries for a run of ids, skipping ids that are
/// no longer indexed.
pub open spec fn collect_latest(h: Seq<EntryV>, ids: Seq<u64>) -> Seq<RecordV>
    decreases ids.len(),
{
    if ids.len() == 0 {
        Seq::<RecordV>::empty()
    } else {
        collect_latest(h, ids.drop_last()) + (match spec_latest_entry(h, ids.last()) {
            Some(e) => seq![e.rec],
            None => Seq::<RecordV>::empty(),
        })
    }
}

impl NyroDB {
    /// Reads the records whose given field was stored with the given text,
    /// through the secondary index, oldest insert first.
    #[verifier::loop_isolation(false)]
    pub fn query_by_field_raw(&mut self, model_name: &str, field: &str, value: &str) -> (r:
        Result<Vec<Record>, NyroError>)
        requires
            old(self).wf(),
        ensures
            final(self).wf(),
            final(self).storages == old(self).storages,
            final(self).pending == old(self).pending,
            final(self).config == old(self).config,
            final(self).broadcaster == old(self).broadcaster,
            ({
                let hist_o = old(self).spec_history(model_name@);
                match r {
                    Ok(rs) => {
                        &&& hist_o is Some
                        &&& ({
                            let h = hist_o->Some_0;
                            let st = storages_find(old(self).storages@, model_name@)->Some_0;
                            rs@.map(|i: int, rec: Record| rec@) == collect_latest(
                                h,
                                st.secondary.spec_ids(
                                    field@,
                                    vstd::utf8::encode_utf8(value@),
                                ),
                            )
                        })
                    },
                    Err(e) => e matches NyroError::ModelUnknown(m) && m@ == model_name@
                        && hist_o is None,
                }
            }),
    {
        let q = match self.find_storage(model_name) {
            Some(q) => q,
            None => {
                return Err(NyroError::ModelUnknown(model_name.to_owned()));
            },
        };
        let field_key = field.to_owned();
        let value_bytes = value.as_bytes_vec();
        let ids = self.storages[q].1.secondary.lookup(&field_key, &value_bytes);
        let ghost st = self.storages@[q as int].1;
        let ghost h = st.history@;
        let mut out: Vec<Record> = Vec::new();
        let mut w: usize = 0;
        proof {
            assert(out@.map(|i: int, rec: Record| rec@) =~= collect_latest(
                h,
                ids@.take(0),
            ));
        }
        while w < ids.len()
            invariant
                0 <= w <= ids@.len(),
                out@.map(|i: int, rec: Record| rec@) == collect_latest(h, ids@.take(w as int)),
            decreases ids@.len() - w,
        {
            proof {
                assert(ids@.take(w as int + 1).drop_last() =~= ids@.take(w as int));
                assert(ids@.take(w as int + 1).last() == ids@[w as int]);
            }
            let ghost pre = out@;
            match self.storages[q].1.get(ids[w]) {
                Some(entry) => {
                    out.push(entry.data);
                    proof {
                        assert(out@.map(|i: int, rec: Record| rec@) =~= pre.map(
                            |i: int, rec: Record| rec@,
                        ).push(out@.last()@));
                        assert(collect_latest(h, ids@.take(w as int + 1)) =~= collect_latest(
                            h,
                            ids@.take(w as int),
                        ).push(spec_latest_entry(h, ids@[w as int])->Some_0.rec));
                    }
                },
                None => {
                    proof {
                        assert(collect_latest(h, ids@.take(w as int + 1)) =~= collect_latest(
                            h,
                            ids@.take(w as int),
                        ));
                    }
                },
            }
            w += 1;
        }
        proof {
            assert(ids@.take(ids@.len() as int) =~= ids@);
        }
        self.metrics.record_query();
        Ok(out)
    }

    /// Sets the shutdown flag, drains the batch queue, and flushes every
    /// segment; the caller persists each returned byte tail to its model's
    /// log file.
    pub fn shutdown(&mut self) -> (r: Vec<(String, Vec<u8>)>)
        requires
            old(self).wf(),
        ensures
            final(self).wf(),
            final(self).shutdown_flag,
            final(self).pending@.len() == 0,
            final(self).config == old(self).config,
            forall|m: Seq<char>| #[trigger]
                final(self).spec_history(m) == (match old(self).spec_history(m) {
                    Some(h) => Some(apply_items(h, items_for(pend_view(old(self).pending@), m))),
                    None => None::<Seq<EntryV>>,
                }),
            forall|i: int|
                0 <= i < final(self).storages@.len() ==> (#[trigger] final(self).storages@[i]).1.flushed == final(self).storages@[i].1.log@.len(),
            r@.len() == final(self).storages@.len(),
            forall|i: int|
                0 <= i < r@.len() ==> (#[trigger] r@[i]).0@ == final(self).storages@[i].0@
                    && r@[i].1@ == final(self).storages@[i].1.log@.skip(
                    old(self).storages@[i].1.flushed as int,
                ),
    {
        self.shutdown_flag = true;
        proof {
            assert(self.wf());
        }
        self.process_batch();
        let ghost mid = *self;
        let mut tails: Vec<(String, Vec<u8>)> = Vec::new();
        let n = self.storages.len();
        let mut i: usize = 0;
        while i < n
            invariant
                0 <= i <= n,
                self.wf(),
                mid.wf(),
                n == self.storages@.len(),
                self.storages@.len() == mid.storages@.len(),
                self.config == mid.config,
                self.pending == mid.pending,
                self.shutdown_flag == mid.shutdown_flag,
                tails@.len() == i,
                forall|k: int|
                    0 <= k < self.storages@.len() ==> (#[trigger] self.storages@[k]).0
                        == mid.storages@[k].0 && self.storages@[k].1.history
                        == mid.storages@[k].1.history && self.storages@[k].1.log
                        == mid.storages@[k].1.log,
                forall|k: int|
                    i <= k < self.storages@.len() ==> (#[trigger] self.storages@[k]).1.flushed
                        == mid.storages@[k].1.flushed,
                forall|k: int|
                    0 <= k < i ==> (#[trigger] self.storages@[k]).1.flushed
                        == self.storages@[k].1.log@.len(),
                forall|k: int|
                    0 <= k < i ==> (#[trigger] tails@[k]).0@ == self.storages@[k].0@
                        && tails@[k].1@ == self.storages@[k].1.log@.skip(
                        mid.storages@[k].1.flushed as int,
                    ),
                forall|m: Seq<char>| #[trigger]
                    self.spec_history(m) == mid.spec_history(m),
            decreases n - i,
        {
            let ghost prev = self.storages@;
            proof {
                assert forall|m2: Seq<char>| #[trigger]
                    hist_of(prev, m2) == mid.spec_history(m2) by {
                    assert(self.spec_history(m2) == mid.spec_history(m2));
                }
            }
            let mut entry = self.storages.remove(i);
            let name = entry.0.clone();
            let tail = entry.1.shutdown();
            self.storages.insert(i, entry);
            tails.push((name, tail));
            proof {
                assert(self.storages@ =~= prev.update(
                    i as int,
                    (prev[i as int].0, self.storages@[i as int].1),
                ));
                assert(storage_names_unique(prev));
                assert(storage_names_unique(self.storages@)) by {
                    assert(forall|k: int|
                        0 <= k < prev.len() ==> (#[trigger] self.storages@[k]).0@
                            == prev[k].0@);
                }
                assert forall|m2: Seq<char>| #[trigger]
                    self.spec_history(m2) == mid.spec_history(m2) by {
                    lemma_storages_find_update(
                        prev,
                        i as int,
                        self.storages@[i as int].1,
                        m2,
                    );
                    assert(self.spec_history(m2) == hist_of(self.storages@, m2));
                    if m2 == prev[i as int].0@ {
                        assert(storages_find(prev, m2) == Some(prev[i as int].1)) by {
                            lemma_storages_find_at(prev, i as int);
                        }
                        assert(self.storages@[i as int].1.history == prev[i as int].1.history);
                        assert(hist_of(self.storages@, m2) == hist_of(prev, m2));
                    } else {
                        assert(hist_of(self.storages@, m2) == hist_of(prev, m2));
                    }
                    assert(hist_of(prev, m2) == mid.spec_history(m2));
                }
                assert forall|k: int|
                    0 <= k < self.storages@.len() implies (#[trigger] self.storages@[k]).1.wf()
                    by {
                    if k != i as int {
                        assert(self.storages@[k] == prev[k]);
                    }
                }
                assert(mid.wf());
                assert forall|name2: Seq<char>|
                    (#[trigger] storages_find(self.storages@, name2) is Some) <==> (
                models_lookup(self.config.models@, name2) is Some) by {
                    assert((storages_find(self.storages@, name2) is Some) == (
                    self.spec_history(name2) is Some));
                    assert(self.spec_history(name2) == mid.spec_history(name2));
                    assert((storages_find(mid.storages@, name2) is Some) == (
                    mid.spec_history(name2) is Some));
                    assert((storages_find(mid.storages@, name2) is Some) <==> (models_lookup(
                        mid.config.models@,
                        name2,
                    ) is Some));
                }
            }
            i += 1;
        }
        tails
    }

    /// A copy of the metrics counters and reservoirs.
    pub fn get_metrics(&self) -> (r: MetricsSnapshot)
        ensures
            r.total_inserts == self.metrics.total_inserts,
            r.total_gets == self.metrics.total_gets,
            r.total_queries == self.metrics.total_queries,
            r.insert_times@ == self.metrics.insert_times@,
            r.get_times@ == self.metrics.get_times@,
    {
        self.metrics.get_stats()
    }

    pub fn get_config(&self) -> (r: &NyroConfig)
        ensures
            *r == self.config,
    {
        &self.config
    }

    /// Attaches a realtime subscriber; see `Broadcaster::subscribe`.
    pub fn subscribe(&mut self) -> (r: usize)
        requires
            old(self).wf(),
        ensures
            final(self).wf(),
            final(self).storages == old(self).storages,
            final(self).pending == old(self).pending,
            final(self).config == old(self).config,
            final(self).metrics == old(self).metrics,
            r == old(self).broadcaster.subscribers@.len(),
            final(self).broadcaster.subscribers@.len() == old(self).broadcaster.subscribers@.len() + 1,
            final(self).broadcaster.ring_of(r as int) == Seq::<Seq<u8>>::empty(),
    {
        self.broadcaster.subscribe()
    }

    /// Takes the pending events of one subscriber; see `Broadcaster::poll`.
    pub fn poll_events(&mut self, sub: usize) -> (r: Vec<Vec<u8>>)
        requires
            old(self).wf(),
            sub < old(self).broadcaster.subscribers@.len(),
        ensures
            final(self).wf(),
            final(self).storages == old(self).storages,
            final(self).pending == old(self).pending,
            final(self).config == old(self).config,
            final(self).metrics == old(self).metrics,
            r@.map(|i: int, e: Vec<u8>| e@) == old(self).broadcaster.ring_of(sub as int),
            final(self).broadcaster.ring_of(sub as int) == Seq::<Seq<u8>>::empty(),
    {
        self.broadcaster.poll(sub)
    }
}

/// Lookup at a name's first occurrence reads that entry.
pub proof fn lemma_storages_find_at(ss: Seq<(String, LogStorage)>, q: int)
    requires
        0 <= q < ss.len(),
        forall|i: int| 0 <= i < q ==> (#[trigger] ss[i]).0@ != ss[q].0@,
    ensures
        storages_find(ss, ss[q].0@) == Some(ss[q].1),
    decreases q,
{
    if q > 0 {
        assert(forall|i: int|
            0 <= i < ss.drop_first().len() ==> #[trigger] ss.drop_first()[i] == ss[i + 1]);
        assert(ss.drop_first()[q - 1] == ss[q]);
        lemma_storages_find_at(ss.drop_first(), q - 1);
    }
}

} // verus!

verus! {

// ---------------------------------------------------------------------------
// Laws of the engine
// ---------------------------------------------------------------------------

pub proof fn lemma_rec_lookup_push(p: RecordV, x: (Seq<char>, crate::models::JVal), n: Seq<char>)
    ensures
        rec_lookup(p.push(x), n) == (if rec_lookup(p, n) is Some {
            rec_lookup(p, n)
        } else if x.0 == n {
            Some(x.1)
        } else {
            None
        }),
    decreases p.len(),
{
    if p.len() == 0 {
        assert(p.push(x)[0] == x);
        assert(p.push(x).drop_first() =~= p);
    } else {
        assert(p.push(x)[0] == p[0]);
        assert(p.push(x).drop_first() =~= p.drop_first().push(x));
        lemma_rec_lookup_push(p.drop_first(), x, n);
    }
}

pub proof fn lemma_rec_lookup_contains(p: RecordV, n: Seq<char>)
    ensures
        (rec_lookup(p, n) is Some) <==> rec_names_contains(p, n),
    decreases p.len(),
{
    if p.len() > 0 {
        lemma_rec_lookup_contains(p.drop_first(), n);
        assert(forall|i: int|
            0 <= i < p.drop_first().len() ==> #[trigger] p.drop_first()[i] == p[i + 1]);
        if p[0].0 == n {
            assert(rec_names_contains(p, n));
        } else {
            if rec_names_contains(p.drop_first(), n) {
                let k = choose|k: int|
                    0 <= k < p.drop_first().len() && p.drop_first()[k].0 == n;
                assert(p[k + 1].0 == n);
            }
            if rec_names_contains(p, n) {
                let k = choose|k: int| 0 <= k < p.len() && p[k].0 == n;
                assert(p.drop_first()[k - 1].0 == n);
            }
        }
    }
}

/// What a projection holds under a name: the record's own value, exactly
/// when the name stands among the first `i` schema fields and the record
/// carries it.
pub proof fn lemma_project_lookup(fields: Seq<ModelField>, i: int, r: RecordV, n: Seq<char>)
    requires
        0 <= i <= fields.len(),
    ensures
        rec_lookup(spec_project_upto(fields, i, r), n) == (if (exists|k: int|
            0 <= k < i && (#[trigger] fields[k]).name@ == n) && rec_lookup(r, n) is Some {
            rec_lookup(r, n)
        } else {
            None
        }),
    decreases i,
{
    if i == 0 {
    } else {
        lemma_project_lookup(fields, i - 1, r, n);
        let p = spec_project_upto(fields, i - 1, r);
        lemma_rec_lookup_contains(p, fields[i - 1].name@);
        match rec_lookup(r, fields[i - 1].name@) {
            Some(v) => {
                if !rec_names_contains(p, fields[i - 1].name@) {
                    lemma_rec_lookup_push(p, (fields[i - 1].name@, v), n);
                }
            },
            None => {},
        }
        if (exists|k: int| 0 <= k < i && (#[trigger] fields[k]).name@ == n) && !(exists|k: int|
            0 <= k < i - 1 && (#[trigger] fields[k]).name@ == n) {
            assert(fields[i - 1].name@ == n) by {
                let k = choose|k: int| 0 <= k < i && (#[trigger] fields[k]).name@ == n;
                assert(k == i - 1);
            }
        }
    }
}

/// Projection keeps only declared fields: the projected record has a field
/// only when the schema declares it.
pub proof fn lemma_projection_declared(fields: Seq<ModelField>, r: RecordV, n: Seq<char>)
    ensures
        crate::models::rec_has_field(spec_project(fields, r), n) ==> exists|k: int|
            0 <= k < fields.len() && (#[trigger] fields[k]).name@ == n,
{
    lemma_project_lookup(fields, fields.len() as int, r, n);
}

/// Projection keeps the id: when the schema declares `id` and the record
/// carries one, the projected record carries the same id.
pub proof fn lemma_projection_keeps_id(fields: Seq<ModelField>, r: RecordV, i: u64)
    requires
        rec_id(r) == Some(i),
        exists|k: int| 0 <= k < fields.len() && (#[trigger] fields[k]).name@ == "id"@,
    ensures
        rec_id(spec_project(fields, r)) == Some(i),
{
    lemma_project_lookup(fields, fields.len() as int, r, "id"@);
}

/// Round trip: after storing the projection of record `r` (with id `i`)
/// as a new entry, the latest entry for `i` is exactly that entry, so a
/// read of `i` returns the projection of `r`.
pub proof fn lemma_insert_get_roundtrip(
    h: Seq<EntryV>,
    fields: Seq<ModelField>,
    r: RecordV,
    ts: u64,
    i: u64,
)
    requires
        rec_id(r) == Some(i),
        exists|k: int| 0 <= k < fields.len() && (#[trigger] fields[k]).name@ == "id"@,
    ensures
        spec_latest_entry(
            h.push(EntryV { timestamp: ts, op: 0, rec: spec_project(fields, r) }),
            i,
        ) == Some(EntryV { timestamp: ts, op: 0, rec: spec_project(fields, r) }),
{
    lemma_projection_keeps_id(fields, r, i);
    let e = EntryV { timestamp: ts, op: 0, rec: spec_project(fields, r) };
    assert(h.push(e).last() == e);
}

/// Batch preservation: a queued item that decodes, whose model was being
/// drained, and that fits at its turn, stands in the drained history.
pub proof fn lemma_batch_preservation(h: Seq<EntryV>, items: Seq<Seq<u8>>, k: int)
    requires
        0 <= k < items.len(),
        queued_entry(items[k]) is Some,
        fits(apply_items(h, items.take(k)), items[k]),
    ensures
        exists|w: int|
            0 <= w < apply_items(h, items).len() && #[trigger] apply_items(h, items)[w]
                == queued_entry(items[k])->Some_0,
    decreases items.len(),
{
    let e = queued_entry(items[k])->Some_0;
    if k == items.len() - 1 {
        assert(items.take(k) =~= items.drop_last());
        let base = apply_items(h, items.drop_last());
        assert(apply_items(h, items) == apply_one(base, items.last()));
        assert(apply_items(h, items) == base.push(e));
        assert(apply_items(h, items)[base.len() as int] == e);
    } else {
        assert(items.take(k) =~= items.drop_last().take(k));
        assert(items.drop_last()[k] == items[k]);
        lemma_batch_preservation(h, items.drop_last(), k);
        let base = apply_items(h, items.drop_last());
        let w = choose|w: int| 0 <= w < base.len() && #[trigger] base[w] == e;
        assert(apply_items(h, items) == apply_one(base, items.last()));
        assert(apply_items(h, items)[w] == e) by {
            match queued_entry(items.last()) {
                Some(e2) => {
                    if fits(base, items.last()) {
                        assert(base.push(e2)[w] == base[w]);
                    }
                },
                None => {},
            }
        }
    }
}

/// Broadcast delivery: a subscriber whose ring has room receives exactly
/// the published event, appended at the tail of its ring.
pub proof fn lemma_broadcast_delivery(q: Seq<Seq<u8>>, ev: Seq<u8>, cap: int)
    requires
        q.len() < cap,
    ensures
        crate::broadcast::ring_push(q, ev, cap) == q.push(ev),
{
}

} // verus!

verus! {

impl NyroDB {
    /// Read access to a model's segment; the model must be configured.
    pub fn get_storage<'a>(&'a self, model_name: &str) -> (r: Result<&'a LogStorage, NyroError>)
        requires
            self.wf(),
        ensures
            match r {
                Ok(st) => storages_find(self.storages@, model_name@) == Some(*st) && st.wf(),
                Err(e) => e matches NyroError::ModelUnknown(m) && m@ == model_name@
                    && storages_find(self.storages@, model_name@) is None,
            },
    {
        match self.find_storage(model_name) {
            Some(q) => Ok(&self.storages[q].1),
            None => Err(NyroError::ModelUnknown(model_name.to_owned())),
        }
    }
}

} // verus!
