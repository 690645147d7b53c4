use vstd::prelude::*;
use crate::frame::{
    decode_payload, encode_log, entry_frame, entry_payload, lemma_encode_log_snoc,
    lemma_payload_canon, lemma_payload_roundtrip, make_frame, make_payload, ser_envelope,
    spec_rebuild, wf_disk_entry, wf_history,
};
use crate::json::ser_record;
use crate::errors::NyroError;
use crate::json::copy_range;
use crate::models::{
    byte_op, op_byte, rec_id, spec_byte_op, spec_op_byte, wf_record, EntryV, LogEntry,
    Record, RecordV,
};
use crate::index::{value_key, value_key_bytes, PrimaryIndex, SecIndex};
use vstd::bytes::{lemma_auto_spec_u32_to_from_le_bytes, u32_from_le_bytes};

verus! {

// ---------------------------------------------------------------------------
// The logical state of a segment
//
// A segment's state is its history: the sequence of entries whose frames
// make up the log file.  The primary and secondary indexes are functions of
// the history; the executable structures are proved to track them.
// ---------------------------------------------------------------------------

/// Index of the latest entry whose record carries this id.
pub open spec fn latest_idx(h: Seq<EntryV>, id: u64) -> Option<int>
    decreases h.len(),
{
    if h.len() == 0 {
        None
    } else if rec_id(h.last().rec) == Some(id) {
        Some(h.len() - 1)
    } else {
        latest_idx(h.drop_last(), id)
    }
}

/// Byte offset of the `k`-th frame in the log image.
pub open spec fn offset_of(h: Seq<EntryV>, k: int) -> int {
    encode_log(h.take(k)).len() as int
}

/// What the primary index must say for an id: the offset and payload length
/// of the latest entry with that id.
pub open spec fn spec_primary(h: Seq<EntryV>, id: u64) -> Option<(u64, u32)> {
    match latest_idx(h, id) {
        Some(k) => Some((offset_of(h, k) as u64, entry_payload(h[k]).len() as u32)),
        None => None,
    }
}

/// The latest entry with this id, if any.
pub open spec fn spec_latest_entry(h: Seq<EntryV>, id: u64) -> Option<EntryV> {
    match latest_idx(h, id) {
        Some(k) => Some(h[k]),
        None => None,
    }
}

/// Ids contributed to the `(f, v)` secondary slot by the first `upto`
/// fields of a record carrying id `id`.
pub open spec fn rec_contrib(rec: RecordV, id: u64, upto: int, f: Seq<char>, v: Seq<u8>) -> Seq<
    u64,
>
    decreases upto,
{
    if upto <= 0 || upto > rec.len() {
        Seq::<u64>::empty()
    } else {
        rec_contrib(rec, id, upto - 1, f, v) + (if rec[upto - 1].0 == f && f != "id"@
            && value_key(rec[upto - 1].1) == v {
            seq![id]
        } else {
            Seq::<u64>::empty()
        })
    }
}

/// Ids contributed by one entry: one per non-`id` field matching `(f, v)`,
/// and none when the record has no id.
pub open spec fn entry_contrib(e: EntryV, f: Seq<char>, v: Seq<u8>) -> Seq<u64> {
    match rec_id(e.rec) {
        Some(id) => rec_contrib(e.rec, id, e.rec.len() as int, f, v),
        None => Seq::<u64>::empty(),
    }
}

/// What the secondary index must hold under `(f, v)`: the contributions of
/// every entry, oldest first.
pub open spec fn spec_sec_ids(h: Seq<EntryV>, f: Seq<char>, v: Seq<u8>) -> Seq<u64>
    decreases h.len(),
{
    if h.len() == 0 {
        Seq::<u64>::empty()
    } else {
        spec_sec_ids(h.drop_last(), f, v) + entry_contrib(h.last(), f, v)
    }
}

// ---------------------------------------------------------------------------
// How the state evolves under an append
// ---------------------------------------------------------------------------

/// Appending an entry moves the primary index to the new entry for its id
/// and leaves every other id alone.
pub proof fn lemma_primary_snoc(h: Seq<EntryV>, e: EntryV)
    ensures
        forall|q: u64| #[trigger]
            spec_primary(h.push(e), q) == (match rec_id(e.rec) {
                Some(id) => if q == id {
                    Some(
                        (encode_log(h).len() as u64, entry_payload(e).len() as u32),
                    )
                } else {
                    spec_primary(h, q)
                },
                None => spec_primary(h, q),
            }),
{
    let hp = h.push(e);
    assert(hp.last() == e);
    assert(hp.drop_last() =~= h);
    assert(hp.take(h.len() as int) =~= h);
    assert forall|k: int| 0 <= k < h.len() implies #[trigger] offset_of(hp, k) == offset_of(
        h,
        k,
    ) by {
        assert(hp.take(k) =~= h.take(k));
    }
    assert forall|q: u64| #[trigger]
        spec_primary(hp, q) == (match rec_id(e.rec) {
            Some(id) => if q == id {
                Some((encode_log(h).len() as u64, entry_payload(e).len() as u32))
            } else {
                spec_primary(h, q)
            },
            None => spec_primary(h, q),
        }) by {
        if rec_id(e.rec) == Some(q) {
            assert(latest_idx(hp, q) == Some(h.len() as int));
            assert(offset_of(hp, h.len() as int) == encode_log(h).len());
            assert(hp[h.len() as int] == e);
        } else {
            assert(latest_idx(hp, q) == latest_idx(h, q));
            match latest_idx(h, q) {
                Some(k) => {
                    lemma_latest_idx_in_range(h, q);
                    assert(hp[k] == h[k]);
                },
                None => {},
            }
        }
    }
}

pub proof fn lemma_latest_idx_in_range(h: Seq<EntryV>, id: u64)
    requires
        latest_idx(h, id) is Some,
    ensures
        0 <= latest_idx(h, id)->Some_0 < h.len(),
        rec_id(h[latest_idx(h, id)->Some_0].rec) == Some(id),
    decreases h.len(),
{
    if h.len() > 0 && rec_id(h.last().rec) != Some(id) {
        lemma_latest_idx_in_range(h.drop_last(), id);
        let k = latest_idx(h.drop_last(), id)->Some_0;
        assert(h.drop_last()[k] == h[k]);
    }
}

/// Appending an entry extends each secondary slot by the entry's own
/// contribution.
pub proof fn lemma_sec_snoc(h: Seq<EntryV>, e: EntryV)
    ensures
        forall|f: Seq<char>, v: Seq<u8>| #[trigger]
            spec_sec_ids(h.push(e), f, v) == spec_sec_ids(h, f, v) + entry_contrib(e, f, v),
{
    let hp = h.push(e);
    assert(hp.last() == e);
    assert(hp.drop_last() =~= h);
}

// ---------------------------------------------------------------------------
// Reading a frame back out of the log image
// ---------------------------------------------------------------------------

/// `encode_log` distributes over a leading entry.
pub proof fn lemma_encode_log_cons(x: EntryV, r: Seq<EntryV>)
    ensures
        encode_log(seq![x] + r) == entry_frame(x) + encode_log(r),
{
    assert((seq![x] + r)[0] == x);
    assert((seq![x] + r).drop_first() =~= r);
    assert((seq![x] + r).len() > 0);
}

/// The bytes of the `k`-th frame sit at its offset in the log image.
pub proof fn lemma_log_slice(h: Seq<EntryV>, k: int)
    requires
        0 <= k < h.len(),
    ensures
        offset_of(h, k) >= 0,
        offset_of(h, k) + entry_frame(h[k]).len() <= encode_log(h).len(),
        encode_log(h).subrange(offset_of(h, k), offset_of(h, k) + entry_frame(h[k]).len() as int)
            == entry_frame(h[k]),
    decreases h.len(),
{
    let log = encode_log(h);
    if k == 0 {
        assert(h.take(0) =~= Seq::<EntryV>::empty());
        assert(offset_of(h, 0) == 0);
        assert(log == entry_frame(h[0]) + encode_log(h.drop_first()));
        assert(log.subrange(0, entry_frame(h[0]).len() as int) =~= entry_frame(h[0]));
    } else {
        let rest = h.drop_first();
        assert(log == entry_frame(h[0]) + encode_log(rest));
        let f0 = entry_frame(h[0]).len() as int;
        assert(rest[k - 1] == h[k]);
        lemma_log_slice(rest, k - 1);
        assert(h.take(k) =~= seq![h[0]] + rest.take(k - 1));
        lemma_encode_log_cons(h[0], rest.take(k - 1));
        assert(offset_of(h, k) == f0 + offset_of(rest, k - 1));
        let ro = offset_of(rest, k - 1);
        let fl = entry_frame(h[k]).len() as int;
        assert(log.subrange(f0 + ro, f0 + ro + fl) =~= encode_log(rest).subrange(ro, ro + fl))
            by {
            assert(forall|i: int|
                0 <= i < fl ==> log[f0 + ro + i] == #[trigger] encode_log(rest)[ro + i]);
        }
    }
}

} // verus!

verus! {

// ---------------------------------------------------------------------------
// The segment
// ---------------------------------------------------------------------------

/// One model's append-only log with its indexes.
///
/// `log` is the byte image of the segment file; `flushed` marks the prefix
/// already handed over for durable storage, and the caller persists the
/// bytes that `flush` returns.  `history` is the ghost sequence of entries
/// the log encodes.
pub struct LogStorage {
    pub log: Vec<u8>,
    pub flushed: usize,
    pub index: PrimaryIndex,
    pub secondary: SecIndex,
    pub current_offset: u64,
    pub history: Ghost<Seq<EntryV>>,
}

impl LogStorage {
    pub open spec fn wf(&self) -> bool {
        &&& wf_history(self.history@)
        &&& self.log@ == encode_log(self.history@)
        &&& self.current_offset == self.log@.len()
        &&& self.flushed <= self.log@.len()
        &&& self.index.wf()
        &&& forall|id: u64| #[trigger]
            self.index.spec_get(id) == spec_primary(self.history@, id)
        &&& self.secondary.wf()
        &&& forall|f: Seq<char>, v: Seq<u8>| #[trigger]
            self.secondary.spec_ids(f, v) == spec_sec_ids(self.history@, f, v)
    }

    /// Builds a segment from the bytes of its file, recovering the valid
    /// prefix and discarding a truncated or undecodable tail.
    #[verifier::rlimit(100)]
    pub fn new(file_bytes: Vec<u8>) -> (r: Self)
        ensures
            r.wf(),
            r.history@ == spec_rebuild(file_bytes@),
            r.flushed == r.log@.len(),
    {
        let mut st = LogStorage {
            log: Vec::new(),
            flushed: 0,
            index: PrimaryIndex::new(),
            secondary: SecIndex::new(),
            current_offset: 0,
            history: Ghost(Seq::<EntryV>::empty()),
        };
        proof {
            assert(st.log@ =~= encode_log(st.history@));
            assert forall|id: u64| #[trigger]
                st.index.spec_get(id) == spec_primary(st.history@, id) by {
                assert(latest_idx(st.history@, id) is None);
            }
            assert(forall|f: Seq<char>, v: Seq<u8>| #[trigger]
                st.secondary.spec_ids(f, v) == spec_sec_ids(st.history@, f, v));
            assert(spec_rebuild(file_bytes@) =~= st.history@ + spec_rebuild(
                file_bytes@.skip(0),
            )) by {
                assert(file_bytes@.skip(0) =~= file_bytes@);
            }
        }
        let mut off: usize = 0;
        loop
            invariant
                st.wf(),
                off <= file_bytes@.len(),
                off == st.log@.len(),
                st.flushed == 0,
                spec_rebuild(file_bytes@) == st.history@ + spec_rebuild(
                    file_bytes@.skip(off as int),
                ),
            ensures
                st.wf(),
                st.flushed == 0,
                st.history@ == spec_rebuild(file_bytes@),
            decreases file_bytes@.len() - off,
        {
            let ghost rem = file_bytes@.skip(off as int);
            if file_bytes.len() - off < 4 {
                proof {
                    assert(spec_rebuild(rem) =~= Seq::<EntryV>::empty());
                    assert(st.history@ + Seq::<EntryV>::empty() =~= st.history@);
                }
                break ;
            }
            let hdr = copy_range(&file_bytes, off, off + 4);
            proof {
                assert(hdr@ =~= rem.subrange(0, 4)) by {
                    assert(forall|k: int|
                        0 <= k < 4 ==> rem.subrange(0, 4)[k] == #[trigger] file_bytes@[off
                            + k]);
                }
            }
            let n = u32_from_le_bytes(hdr.as_slice());
            if file_bytes.len() - off - 4 < n as usize {
                proof {
                    assert(spec_rebuild(rem) =~= Seq::<EntryV>::empty());
                    assert(st.history@ + Seq::<EntryV>::empty() =~= st.history@);
                }
                break ;
            }
            let payload = copy_range(&file_bytes, off + 4, off + 4 + n as usize);
            proof {
                assert(payload@ =~= rem.subrange(4, 4 + n as int)) by {
                    assert(forall|k: int|
                        0 <= k < n as int ==> rem.subrange(4, 4 + n as int)[k]
                            == #[trigger] file_bytes@[off + 4 + k]);
                }
            }
            match decode_payload(&payload) {
                None => {
                    proof {
                        assert(spec_rebuild(rem) =~= Seq::<EntryV>::empty());
                        assert(st.history@ + Seq::<EntryV>::empty() =~= st.history@);
                    }
                    break ;
                },
                Some((ts, opb, rec)) => {
                    let ghost e = EntryV { timestamp: ts, op: opb, rec: rec@ };
                    proof {
                        lemma_payload_canon(payload@);
                        lemma_auto_spec_u32_to_from_le_bytes();
                        assert(spec_rebuild(rem) == seq![e] + spec_rebuild(
                            rem.skip(4 + n as int),
                        ));
                        assert(rem.skip(4 + n as int) =~= file_bytes@.skip(
                            off as int + 4 + n as int,
                        ));
                        assert(st.history@ + (seq![e] + spec_rebuild(
                            file_bytes@.skip(off as int + 4 + n as int),
                        )) =~= st.history@.push(e) + spec_rebuild(
                            file_bytes@.skip(off as int + 4 + n as int),
                        ));
                    }
                    st.append_decoded(ts, opb, rec, payload);
                    off = off + 4 + n as usize;
                },
            }
        }
        st.flushed = st.log.len();
        st
    }

    /// Appends a decoded entry: writes its frame and updates both indexes.
    #[verifier::loop_isolation(false)]
    fn append_decoded(&mut self, ts: u64, opb: u8, rec: Record, payload: Vec<u8>)
        requires
            old(self).wf(),
            payload@ == ser_envelope(ts, opb, ser_record(rec@)),
            wf_record(rec@),
            payload@.len() <= u32::MAX,
            old(self).log@.len() + 4 + payload@.len() <= u64::MAX,
        ensures
            final(self).wf(),
            final(self).history@ == old(self).history@.push(
                EntryV { timestamp: ts, op: opb, rec: rec@ },
            ),
            final(self).log@ == old(self).log@ + entry_frame(
                EntryV { timestamp: ts, op: opb, rec: rec@ },
            ),
            final(self).flushed == old(self).flushed,
            final(self).current_offset == old(self).current_offset + 4 + payload@.len(),
    {
        let ghost e = EntryV { timestamp: ts, op: opb, rec: rec@ };
        let ghost h0 = self.history@;
        proof {
            lemma_auto_spec_u32_to_from_le_bytes();
            assert(entry_payload(e) == payload@);
            assert(wf_disk_entry(e));
        }
        let psize = payload.len() as u32;
        let mut fr = make_frame(&payload);
        let offset = self.current_offset;
        self.log.append(&mut fr);
        proof {
            lemma_encode_log_snoc(h0, e);
        }
        match crate::models::rec_get_id(&rec) {
            Some(id) => {
                self.index.insert(id, (offset, psize));
                let idkey = <String as vstd::string::StringExecFns>::from_str("id");
                let ghost glog = self.log@;
                let ghost gco = self.current_offset;
                let ghost gfl = self.flushed;
                let ghost gidx = self.index;
                let mut q: usize = 0;
                proof {
                    assert forall|f: Seq<char>, v: Seq<u8>| #[trigger]
                        self.secondary.spec_ids(f, v) == spec_sec_ids(h0, f, v) + rec_contrib(
                        rec@,
                        id,
                        0,
                        f,
                        v,
                    ) by {
                        assert(rec_contrib(rec@, id, 0, f, v) == Seq::<u64>::empty());
                        assert(spec_sec_ids(h0, f, v) + Seq::<u64>::empty() =~= spec_sec_ids(
                            h0,
                            f,
                            v,
                        ));
                    }
                }
                while q < rec.fields.len()
                    invariant
                        0 <= q <= rec.fields@.len(),
                        idkey@ == "id"@,
                        self.log@ == glog,
                        self.flushed == gfl,
                        self.current_offset == gco,
                        self.history@ == h0,
                        self.index == gidx,
                        self.secondary.wf(),
                        forall|f: Seq<char>, v: Seq<u8>| #[trigger]
                            self.secondary.spec_ids(f, v) == spec_sec_ids(h0, f, v)
                                + rec_contrib(rec@, id, q as int, f, v),
                    decreases rec.fields@.len() - q,
                {
                    proof {
                        assert(rec@[q as int] == (
                            rec.fields@[q as int].0@,
                            rec.fields@[q as int].1@,
                        ));
                    }
                    let ghost secpre = self.secondary;
                    if !rec.fields[q].0.eq(&idkey) {
                        let vk = value_key_bytes(&rec.fields[q].1);
                        self.secondary.add(&rec.fields[q].0, vk, id);
                        proof {
                            let name = rec@[q as int].0;
                            let key = value_key(rec@[q as int].1);
                            assert forall|f: Seq<char>, v: Seq<u8>| #[trigger]
                                self.secondary.spec_ids(f, v) == spec_sec_ids(h0, f, v)
                                    + rec_contrib(rec@, id, q as int + 1, f, v) by {
                                assert(rec_contrib(rec@, id, q as int + 1, f, v)
                                    == rec_contrib(rec@, id, q as int, f, v) + (if rec@[
                                    q as int].0 == f && f != "id"@ && value_key(
                                    rec@[q as int].1,
                                ) == v {
                                    seq![id]
                                } else {
                                    Seq::<u64>::empty()
                                }));
                                if f == name && v == key {
                                    assert(self.secondary.spec_ids(f, v)
                                        == secpre.spec_ids(f, v).push(id));
                                    assert((spec_sec_ids(h0, f, v) + rec_contrib(
                                        rec@,
                                        id,
                                        q as int,
                                        f,
                                        v,
                                    )).push(id) =~= spec_sec_ids(h0, f, v) + (rec_contrib(
                                        rec@,
                                        id,
                                        q as int,
                                        f,
                                        v,
                                    ) + seq![id]));
                                } else {
                                    assert(rec_contrib(rec@, id, q as int, f, v) + Seq::<
                                        u64,
                                    >::empty() =~= rec_contrib(rec@, id, q as int, f, v));
                                }
                            }
                        }
                    } else {
                        proof {
                            assert forall|f: Seq<char>, v: Seq<u8>| #[trigger]
                                self.secondary.spec_ids(f, v) == spec_sec_ids(h0, f, v)
                                    + rec_contrib(rec@, id, q as int + 1, f, v) by {
                                assert(rec@[q as int].0 == "id"@);
                                assert(rec_contrib(rec@, id, q as int + 1, f, v)
                                    == rec_contrib(rec@, id, q as int, f, v) + (if rec@[
                                    q as int].0 == f && f != "id"@ && value_key(
                                    rec@[q as int].1,
                                ) == v {
                                    seq![id]
                                } else {
                                    Seq::<u64>::empty()
                                }));
                                assert(rec_contrib(rec@, id, q as int, f, v) + Seq::<
                                    u64,
                                >::empty() =~= rec_contrib(rec@, id, q as int, f, v));
                            }
                        }
                    }
                    q += 1;
                }
                proof {
                    assert(rec_id(e.rec) == Some(id));
                    lemma_primary_snoc(h0, e);
                    lemma_sec_snoc(h0, e);
                    assert(rec@.len() == rec.fields@.len());
                    assert(forall|f: Seq<char>, v: Seq<u8>| #[trigger]
                        self.secondary.spec_ids(f, v) == spec_sec_ids(h0, f, v)
                            + entry_contrib(e, f, v));
                    assert forall|k: u64| #[trigger]
                        self.index.spec_get(k) == spec_primary(h0.push(e), k) by {
                        assert(encode_log(h0).len() == old(self).log@.len());
                        if k == id {
                            assert(offset == encode_log(h0).len() as u64);
                            assert(psize == entry_payload(e).len() as u32);
                        }
                    }
                }
            },
            None => {
                proof {
                    assert(rec_id(e.rec) is None);
                    lemma_primary_snoc(h0, e);
                    lemma_sec_snoc(h0, e);
                    assert(forall|k: u64| #[trigger]
                        self.index.spec_get(k) == spec_primary(h0.push(e), k));
                    assert forall|f: Seq<char>, v: Seq<u8>| #[trigger]
                        self.secondary.spec_ids(f, v) == spec_sec_ids(h0.push(e), f, v) by {
                        assert(entry_contrib(e, f, v) == Seq::<u64>::empty());
                        assert(spec_sec_ids(h0, f, v) + Seq::<u64>::empty() =~= spec_sec_ids(
                            h0,
                            f,
                            v,
                        ));
                    }
                }
            },
        }
        self.current_offset = self.current_offset + 4 + payload.len() as u64;
        self.history = Ghost(h0.push(e));
        proof {
            assert(wf_history(h0.push(e))) by {
                assert(forall|i: int| 0 <= i < h0.len() ==> #[trigger] h0.push(e)[i] == h0[i]);
                assert(h0.push(e)[h0.len() as int] == e);
            }
            assert(self.history@ == h0.push(e));
            assert(self.log@ == encode_log(h0) + entry_frame(e));
            assert(self.log@ == encode_log(self.history@));
            assert(self.current_offset == self.log@.len());
            assert(self.flushed <= self.log@.len());
            assert(self.index.wf());
            assert(forall|id2: u64| #[trigger]
                self.index.spec_get(id2) == spec_primary(self.history@, id2));
            assert(self.secondary.wf());
            assert(forall|f: Seq<char>, v: Seq<u8>| #[trigger]
                self.secondary.spec_ids(f, v) == spec_sec_ids(self.history@, f, v));
        }
    }

    /// Appends one log entry.  The record must be well formed and its
    /// payload must fit the frame header and the offset counter; otherwise
    /// the entry is rejected and the segment is unchanged.
    pub fn append(&mut self, entry: LogEntry<Record>) -> (r: Result<(), NyroError>)
        requires
            old(self).wf(),
        ensures
            final(self).wf(),
            ({
                let ev = EntryV {
                    timestamp: entry.timestamp,
                    op: spec_op_byte(entry.operation),
                    rec: entry.data@,
                };
                let fits_frame = entry_payload(ev).len() <= u32::MAX;
                let fits_log = old(self).log@.len() + 4 + entry_payload(ev).len() <= u64::MAX;
                match r {
                    Ok(_) => {
                        &&& wf_record(entry.data@)
                        &&& fits_frame
                        &&& fits_log
                        &&& final(self).history@ == old(self).history@.push(ev)
                        &&& final(self).log@ == old(self).log@ + entry_frame(ev)
                        &&& final(self).current_offset == old(self).current_offset + 4
                            + entry_payload(ev).len()
                        &&& final(self).flushed == old(self).flushed
                    },
                    Err(e) => {
                        &&& *final(self) == *old(self)
                        &&& (e is CodecFailure <==> (!wf_record(entry.data@) || !fits_frame))
                        &&& (e is StorageIO <==> (wf_record(entry.data@) && fits_frame
                            && !fits_log))
                        &&& (e is CodecFailure || e is StorageIO)
                    },
                }
            }),
    {
        let ghost ev = EntryV {
            timestamp: entry.timestamp,
            op: spec_op_byte(entry.operation),
            rec: entry.data@,
        };
        if !crate::json::check_record_wf(&entry.data) {
            return Err(NyroError::CodecFailure);
        }
        let data = crate::json::record_to_json(&entry.data);
        if data.len() as u64 > u32::MAX as u64 - 17 {
            proof {
                assert(entry_payload(ev).len() == 17 + data@.len()) by {
                    lemma_envelope_len(entry.timestamp, spec_op_byte(entry.operation), data@);
                }
            }
            return Err(NyroError::CodecFailure);
        }
        let opb = op_byte(&entry.operation);
        let payload = make_payload(entry.timestamp, opb, data);
        if self.current_offset > u64::MAX - 4 - payload.len() as u64 {
            return Err(NyroError::StorageIO);
        }
        self.append_decoded(entry.timestamp, opb, entry.data, payload);
        Ok(())
    }

    /// Reads the latest entry stored for an id.
    pub fn get(&self, id: u64) -> (r: Option<LogEntry<Record>>)
        requires
            self.wf(),
        ensures
            match (r, spec_latest_entry(self.history@, id)) {
                (Some(le), Some(e)) => le.timestamp == e.timestamp && le.operation
                    == spec_byte_op(e.op) && le.data@ == e.rec,
                (None, None) => true,
                _ => false,
            },
    {
        match self.index.get(id) {
            None => None,
            Some((off, size)) => {
                let ghost h = self.history@;
                let ghost k = latest_idx(h, id)->Some_0;
                let loglen = self.log.len();
                proof {
                    lemma_latest_idx_in_range(h, id);
                    lemma_log_slice(h, k);
                    lemma_auto_spec_u32_to_from_le_bytes();
                    assert(entry_frame(h[k]).len() == 4 + entry_payload(h[k]).len());
                    assert(off == offset_of(h, k) && size == entry_payload(h[k]).len());
                    assert(offset_of(h, k) + 4 + entry_payload(h[k]).len() <= loglen as int);
                    assert(off as int + 4 + size as int <= loglen as int);
                }
                let o = off as usize;
                let payload = copy_range(&self.log, o + 4, o + 4 + size as usize);
                proof {
                    let fr = entry_frame(h[k]);
                    assert(self.log@.subrange(o as int, o as int + fr.len() as int) == fr);
                    assert(payload@ =~= entry_payload(h[k])) by {
                        assert(forall|i: int|
                            0 <= i < size as int ==> self.log@.subrange(
                                o as int,
                                o as int + fr.len() as int,
                            )[4 + i] == #[trigger] self.log@[o + 4 + i]);
                        assert(forall|i: int|
                            0 <= i < size as int ==> fr[4 + i] == #[trigger] entry_payload(
                                h[k],
                            )[i]);
                    }
                    lemma_payload_roundtrip(h[k]);
                }
                match decode_payload(&payload) {
                    Some((ts, opb, rec)) => Some(
                        LogEntry { timestamp: ts, operation: byte_op(opb), data: rec },
                    ),
                    None => vstd::pervasive::unreached(),
                }
            },
        }
    }

    /// Reads every indexed entry, in index order.
    pub fn get_all(&self) -> (r: Vec<LogEntry<Record>>)
        requires
            self.wf(),
        ensures
            r@.len() == self.index.key_seq().len(),
            forall|i: int|
                0 <= i < r@.len() ==> {
                    &&& spec_latest_entry(self.history@, self.index.key_seq()[i]) is Some
                    &&& (#[trigger] r@[i]).data@ == spec_latest_entry(
                        self.history@,
                        self.index.key_seq()[i],
                    )->Some_0.rec
                },
            forall|i: int, j: int|
                0 <= i < j < self.index.key_seq().len() ==> self.index.key_seq()[i]
                    != self.index.key_seq()[j],
            forall|id: u64|
                (spec_primary(self.history@, id) is Some) <==> self.index.key_seq().contains(
                    id,
                ),
    {
        proof {
            assert forall|id: u64|
                (spec_primary(self.history@, id) is Some) <==> self.index.key_seq().contains(
                    id,
                ) by {
                crate::index::lemma_key_seq_complete(self.index.entries@, id);
                assert(self.index.spec_get(id) == spec_primary(self.history@, id));
                if exists|i: int|
                    0 <= i < self.index.entries@.len() && (#[trigger] self.index.entries@[i]).0
                        == id {
                    let i = choose|i: int|
                        0 <= i < self.index.entries@.len() && (
                        #[trigger] self.index.entries@[i]).0 == id;
                    assert(self.index.key_seq()[i] == id);
                }
                if self.index.key_seq().contains(id) {
                    let i = choose|i: int|
                        0 <= i < self.index.key_seq().len() && self.index.key_seq()[i] == id;
                    assert(self.index.entries@[i].0 == id);
                }
            }
        }
        let mut out: Vec<LogEntry<Record>> = Vec::new();
        let mut q: usize = 0;
        while q < self.index.entries.len()
            invariant
                self.wf(),
                0 <= q <= self.index.entries@.len(),
                out@.len() == q,
                forall|i: int|
                    0 <= i < q ==> {
                        &&& spec_latest_entry(self.history@, self.index.key_seq()[i]) is Some
                        &&& (#[trigger] out@[i]).data@ == spec_latest_entry(
                            self.history@,
                            self.index.key_seq()[i],
                        )->Some_0.rec
                    },
            decreases self.index.entries@.len() - q,
        {
            let key = self.index.entries[q].0;
            proof {
                crate::index::lemma_idx_at(self.index.entries@, q as int);
                assert(self.index.spec_get(key) is Some);
                assert(spec_primary(self.history@, key) is Some);
                assert(self.index.key_seq()[q as int] == key);
            }
            match self.get(key) {
                Some(e) => {
                    out.push(e);
                },
                None => {
                    proof {
                        assert(false);
                    }
                },
            }
            q += 1;
        }
        out
    }

    /// Hands back the bytes written since the last flush; the caller must
    /// persist them.  Afterwards the whole log counts as flushed.
    pub fn flush(&mut self) -> (r: Vec<u8>)
        requires
            old(self).wf(),
        ensures
            final(self).wf(),
            final(self).log == old(self).log,
            final(self).index == old(self).index,
            final(self).secondary == old(self).secondary,
            final(self).current_offset == old(self).current_offset,
            final(self).history == old(self).history,
            final(self).flushed == final(self).log@.len(),
            r@ == old(self).log@.skip(old(self).flushed as int),
    {
        let tail = copy_range(&self.log, self.flushed, self.log.len());
        self.flushed = self.log.len();
        proof {
            assert(tail@ =~= old(self).log@.skip(old(self).flushed as int));
        }
        tail
    }

    /// Flushes the buffer on shutdown; the caller persists the returned
    /// bytes.
    pub fn shutdown(&mut self) -> (r: Vec<u8>)
        requires
            old(self).wf(),
        ensures
            final(self).wf(),
            final(self).log == old(self).log,
            final(self).history == old(self).history,
            final(self).flushed == final(self).log@.len(),
            r@ == old(self).log@.skip(old(self).flushed as int),
    {
        self.flush()
    }
}

/// The envelope adds seventeen bytes to the data.
pub proof fn lemma_envelope_len(ts: u64, op: u8, data: Seq<u8>)
    ensures
        crate::frame::ser_envelope(ts, op, data).len() == 17 + data.len(),
{
    vstd::bytes::lemma_auto_spec_u64_to_from_le_bytes();
}

} // verus!

verus! {

// ---------------------------------------------------------------------------
// Laws of the segment
// ---------------------------------------------------------------------------

/// Sum of `4 + payload length` over a history, in order.
pub open spec fn frames_len(h: Seq<EntryV>) -> int
    decreases h.len(),
{
    if h.len() == 0 {
        0
    } else {
        4 + entry_payload(h[0]).len() + frames_len(h.drop_first())
    }
}

pub proof fn lemma_encode_log_len_is_frames(h: Seq<EntryV>)
    ensures
        encode_log(h).len() == frames_len(h),
    decreases h.len(),
{
    lemma_auto_spec_u32_to_from_le_bytes();
    if h.len() > 0 {
        lemma_encode_log_len_is_frames(h.drop_first());
    }
}

/// Offset accounting: a segment's offset is exactly the sum of
/// `4 + payload length` over every entry it has appended.
pub proof fn lemma_offset_accounting(st: &LogStorage)
    requires
        st.wf(),
    ensures
        st.current_offset == frames_len(st.history@),
{
    lemma_encode_log_len_is_frames(st.history@);
}

/// Recovery: rebuilding from a segment's own log image yields the same
/// history, and with it the same primary-index entries and the same
/// secondary-index id lists.
pub proof fn lemma_recovery(st: &LogStorage)
    requires
        st.wf(),
    ensures
        spec_rebuild(st.log@) == st.history@,
        forall|id: u64| #[trigger]
            spec_primary(spec_rebuild(st.log@), id) == st.index.spec_get(id),
        forall|f: Seq<char>, v: Seq<u8>| #[trigger]
            spec_sec_ids(spec_rebuild(st.log@), f, v) == st.secondary.spec_ids(f, v),
{
    crate::frame::lemma_rebuild_roundtrip(st.history@);
}

/// Truncated-tail recovery: a segment's log image followed by a fragment
/// that is too short for a frame header, or shorter than the payload its
/// header announces, rebuilds to exactly the segment's history.
pub proof fn lemma_truncated_recovery(st: &LogStorage, g: Seq<u8>)
    requires
        st.wf(),
        g.len() < 4 || g.len() < 4 + vstd::bytes::spec_u32_from_le_bytes(g.subrange(0, 4)),
    ensures
        spec_rebuild(st.log@ + g) == st.history@,
        st.current_offset == frames_len(spec_rebuild(st.log@ + g)),
{
    crate::frame::lemma_rebuild_truncated(st.history@, g);
    lemma_encode_log_len_is_frames(st.history@);
}

/// Last write wins: after two appends whose records carry the same id, the
/// latest entry for that id is the second one.
pub proof fn lemma_last_write_wins(h: Seq<EntryV>, e1: EntryV, e2: EntryV, id: u64)
    requires
        rec_id(e2.rec) == Some(id),
    ensures
        spec_latest_entry(h.push(e1).push(e2), id) == Some(e2),
{
    let hp = h.push(e1).push(e2);
    assert(hp.last() == e2);
}

} // verus!
