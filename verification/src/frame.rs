use vstd::prelude::*;
use vstd::bytes::{
    lemma_auto_spec_u32_to_from_le_bytes, lemma_auto_spec_u64_to_from_le_bytes,
    spec_u32_from_le_bytes, spec_u32_to_le_bytes, spec_u64_from_le_bytes, spec_u64_to_le_bytes,
    u32_from_le_bytes, u32_to_le_bytes, u64_from_le_bytes, u64_to_le_bytes,
};
use crate::json::{
    copy_range, json_to_record, lemma_json_record_canon, lemma_json_record_roundtrip, ser_record,
    spec_json_record,
};
use crate::models::{wf_record, EntryV, Record};

verus! {

// ---------------------------------------------------------------------------
// On-disk layout
//
// Each persisted record is a frame: a 4-byte little-endian payload length,
// then the payload.  The payload is the entry envelope: the timestamp as 8
// little-endian bytes, the operation byte, the data length as 8
// little-endian bytes, and the JSON-encoded record bytes.
// ---------------------------------------------------------------------------

/// Envelope bytes of one entry payload.
pub open spec fn ser_envelope(ts: u64, op: u8, data: Seq<u8>) -> Seq<u8> {
    spec_u64_to_le_bytes(ts) + seq![op] + spec_u64_to_le_bytes(data.len() as u64) + data
}

/// Reads an envelope; the embedded data length must account for exactly the
/// remaining bytes.
pub open spec fn spec_parse_envelope(p: Seq<u8>) -> Option<(u64, u8, Seq<u8>)> {
    if p.len() < 17 {
        None
    } else {
        let ts = spec_u64_from_le_bytes(p.subrange(0, 8));
        let op = p[8];
        let dl = spec_u64_from_le_bytes(p.subrange(9, 17));
        if dl == p.len() - 17 {
            Some((ts, op, p.skip(17)))
        } else {
            None
        }
    }
}

pub proof fn lemma_envelope_roundtrip(ts: u64, op: u8, data: Seq<u8>)
    requires
        data.len() <= u64::MAX - 17,
    ensures
        spec_parse_envelope(ser_envelope(ts, op, data)) == Some((ts, op, data)),
        ser_envelope(ts, op, data).len() == 17 + data.len(),
{
    lemma_auto_spec_u64_to_from_le_bytes();
    let p = ser_envelope(ts, op, data);
    let a = spec_u64_to_le_bytes(ts);
    let b = a + seq![op];
    let c = b + spec_u64_to_le_bytes(data.len() as u64);
    assert(p == c + data);
    assert(p.len() == 17 + data.len());
    assert(p.subrange(0, 8) =~= a);
    assert(p[8] == op) by {
        assert(p[8] == c[8]);
        assert(c[8] == b[8]);
    }
    assert(p.subrange(9, 17) =~= spec_u64_to_le_bytes(data.len() as u64)) by {
        assert(forall|k: int| 0 <= k < 8 ==> p[9 + k] == #[trigger] c[9 + k]);
        assert(forall|k: int|
            0 <= k < 8 ==> c[9 + k] == #[trigger] spec_u64_to_le_bytes(data.len() as u64)[k]);
    }
    assert(p.skip(17) =~= data);
}

pub proof fn lemma_envelope_canon(p: Seq<u8>)
    requires
        spec_parse_envelope(p) is Some,
    ensures
        ({
            let (ts, op, data) = spec_parse_envelope(p)->Some_0;
            &&& ser_envelope(ts, op, data) == p
            &&& data.len() == p.len() - 17
        }),
{
    lemma_auto_spec_u64_to_from_le_bytes();
    let (ts, op, data) = spec_parse_envelope(p)->Some_0;
    assert(spec_u64_to_le_bytes(ts) == p.subrange(0, 8));
    assert(spec_u64_to_le_bytes(data.len() as u64) == p.subrange(9, 17));
    assert(ser_envelope(ts, op, data) =~= p);
}

/// Frame bytes: 4-byte little-endian payload length, then the payload.
pub open spec fn frame_bytes(payload: Seq<u8>) -> Seq<u8> {
    spec_u32_to_le_bytes(payload.len() as u32) + payload
}

/// The payload bytes of one history entry.
pub open spec fn entry_payload(e: EntryV) -> Seq<u8> {
    ser_envelope(e.timestamp, e.op, ser_record(e.rec))
}

/// The full frame of one history entry.
pub open spec fn entry_frame(e: EntryV) -> Seq<u8> {
    frame_bytes(entry_payload(e))
}

/// An entry that can stand in the log: a well-formed record whose payload
/// length fits the 4-byte frame header.
pub open spec fn wf_disk_entry(e: EntryV) -> bool {
    &&& wf_record(e.rec)
    &&& entry_payload(e).len() <= u32::MAX
}

/// The whole byte image of a history.
pub open spec fn encode_log(h: Seq<EntryV>) -> Seq<u8>
    decreases h.len(),
{
    if h.len() == 0 {
        Seq::<u8>::empty()
    } else {
        entry_frame(h[0]) + encode_log(h.drop_first())
    }
}

pub open spec fn wf_history(h: Seq<EntryV>) -> bool {
    forall|i: int| 0 <= i < h.len() ==> wf_disk_entry(#[trigger] h[i])
}

pub proof fn lemma_encode_log_snoc(h: Seq<EntryV>, e: EntryV)
    ensures
        encode_log(h.push(e)) == encode_log(h) + entry_frame(e),
    decreases h.len(),
{
    if h.len() == 0 {
        assert(h.push(e)[0] == e);
        assert(h.push(e).drop_first() =~= Seq::<EntryV>::empty());
        assert(encode_log(h.push(e)) == entry_frame(e) + encode_log(Seq::<EntryV>::empty()));
        assert(entry_frame(e) + Seq::<u8>::empty() =~= Seq::<u8>::empty() + entry_frame(e));
    } else {
        assert(h.push(e)[0] == h[0]);
        assert(h.push(e).drop_first() =~= h.drop_first().push(e));
        lemma_encode_log_snoc(h.drop_first(), e);
        assert(entry_frame(h[0]) + (encode_log(h.drop_first()) + entry_frame(e)) =~= (entry_frame(
            h[0],
        ) + encode_log(h.drop_first())) + entry_frame(e));
    }
}

/// Decodes one payload: envelope, then the JSON record.
pub open spec fn parse_payload(p: Seq<u8>) -> Option<EntryV> {
    match spec_parse_envelope(p) {
        Some((ts, op, data)) => match spec_json_record(data) {
            Some(rec) => Some(EntryV { timestamp: ts, op: op, rec: rec }),
            None => None,
        },
        None => None,
    }
}

pub proof fn lemma_payload_roundtrip(e: EntryV)
    requires
        wf_disk_entry(e),
    ensures
        parse_payload(entry_payload(e)) == Some(e),
{
    lemma_envelope_roundtrip(e.timestamp, e.op, ser_record(e.rec));
    lemma_json_record_roundtrip(e.rec);
}

pub proof fn lemma_payload_canon(p: Seq<u8>)
    requires
        parse_payload(p) is Some,
    ensures
        entry_payload(parse_payload(p)->Some_0) == p,
        wf_record(parse_payload(p)->Some_0.rec),
{
    lemma_envelope_canon(p);
    let (ts, op, data) = spec_parse_envelope(p)->Some_0;
    lemma_json_record_canon(data);
}

// ---------------------------------------------------------------------------
// Recovery scan
// ---------------------------------------------------------------------------

/// Scans a byte image from the front, collecting every complete, decodable
/// frame, and stops at the first incomplete or undecodable one.  This is
/// the history a segment recovers from a file.
pub open spec fn spec_rebuild(bytes: Seq<u8>) -> Seq<EntryV>
    decreases bytes.len(),
{
    if bytes.len() < 4 {
        Seq::<EntryV>::empty()
    } else {
        let n = spec_u32_from_le_bytes(bytes.subrange(0, 4)) as int;
        if bytes.len() < 4 + n {
            Seq::<EntryV>::empty()
        } else {
            match parse_payload(bytes.subrange(4, 4 + n)) {
                Some(e) => seq![e] + spec_rebuild(bytes.skip(4 + n)),
                None => Seq::<EntryV>::empty(),
            }
        }
    }
}

/// Recovery of a log image with an incomplete tail: rebuilding
/// `encode_log(h)` followed by a truncated fragment recovers exactly `h`.
/// The fragment must be too short for a frame header, or shorter than the
/// payload its header announces.
#[verifier::rlimit(50)]
pub proof fn lemma_rebuild_truncated(h: Seq<EntryV>, g: Seq<u8>)
    requires
        wf_history(h),
        g.len() < 4 || g.len() < 4 + spec_u32_from_le_bytes(g.subrange(0, 4)),
    ensures
        spec_rebuild(encode_log(h) + g) == h,
    decreases h.len(),
{
    let bytes = encode_log(h) + g;
    if h.len() == 0 {
        assert(bytes =~= g);
        assert(spec_rebuild(g) =~= Seq::<EntryV>::empty());
    } else {
        lemma_auto_spec_u32_to_from_le_bytes();
        let e = h[0];
        let rest = h.drop_first();
        let pl = entry_payload(e);
        assert(wf_disk_entry(e));
        assert(spec_u32_to_le_bytes(pl.len() as u32).len() == 4);
        assert(encode_log(h) == entry_frame(e) + encode_log(rest));
        let fr = entry_frame(e);
        assert(fr == spec_u32_to_le_bytes(pl.len() as u32) + pl);
        assert(fr.len() == 4 + pl.len());
        assert(bytes.len() >= 4 + pl.len());
        assert forall|k: int| 0 <= k < fr.len() implies bytes[k] == fr[k] by {
            assert(bytes[k] == (entry_frame(e) + encode_log(rest))[k]);
        }
        assert(bytes.subrange(0, 4) =~= spec_u32_to_le_bytes(pl.len() as u32)) by {
            assert(forall|k: int|
                0 <= k < 4 ==> fr[k] == #[trigger] spec_u32_to_le_bytes(pl.len() as u32)[k]);
        }
        let n = spec_u32_from_le_bytes(bytes.subrange(0, 4)) as int;
        assert(n == pl.len());
        assert(bytes.subrange(4, 4 + n) =~= pl) by {
            assert(forall|k: int| 0 <= k < n ==> fr[4 + k] == #[trigger] pl[k]);
        }
        lemma_payload_roundtrip(e);
        assert(wf_history(rest)) by {
            assert(forall|i: int| 0 <= i < rest.len() ==> #[trigger] rest[i] == h[i + 1]);
        }
        lemma_rebuild_truncated(rest, g);
        assert(bytes.skip(4 + n) =~= encode_log(rest) + g);
        assert(spec_rebuild(bytes) == seq![e] + spec_rebuild(encode_log(rest) + g));
        assert(seq![e] + rest =~= h);
    }
}

/// Recovery of a cleanly written log image: rebuilding `encode_log(h)`
/// recovers exactly `h`.
pub proof fn lemma_rebuild_roundtrip(h: Seq<EntryV>)
    requires
        wf_history(h),
    ensures
        spec_rebuild(encode_log(h)) == h,
{
    lemma_rebuild_truncated(h, Seq::<u8>::empty());
    assert(encode_log(h) + Seq::<u8>::empty() =~= encode_log(h));
}

/// What a rebuild recovers is a well-formed history whose image is a prefix
/// of the bytes scanned.
#[verifier::rlimit(80)]
pub proof fn lemma_rebuild_prefix(bytes: Seq<u8>)
    ensures
        wf_history(spec_rebuild(bytes)),
        encode_log(spec_rebuild(bytes)).len() <= bytes.len(),
        encode_log(spec_rebuild(bytes)) == bytes.take(encode_log(spec_rebuild(bytes)).len() as int),
    decreases bytes.len(),
{
    let h = spec_rebuild(bytes);
    if bytes.len() < 4 {
        assert(encode_log(h) =~= bytes.take(0));
    } else {
        let n = spec_u32_from_le_bytes(bytes.subrange(0, 4)) as int;
        if bytes.len() < 4 + n {
            assert(encode_log(h) =~= bytes.take(0));
        } else {
            match parse_payload(bytes.subrange(4, 4 + n)) {
                Some(e) => {
                    lemma_payload_canon(bytes.subrange(4, 4 + n));
                    lemma_auto_spec_u32_to_from_le_bytes();
                    assert(0 <= n <= u32::MAX);
                    let rest = spec_rebuild(bytes.skip(4 + n));
                    lemma_rebuild_prefix(bytes.skip(4 + n));
                    assert(h == seq![e] + rest);
                    assert(h[0] == e);
                    assert(h.drop_first() =~= rest);
                    assert(encode_log(h) == entry_frame(e) + encode_log(rest));
                    assert(entry_payload(e) == bytes.subrange(4, 4 + n));
                    assert(entry_frame(e) =~= bytes.take(4 + n)) by {
                        assert(spec_u32_to_le_bytes(entry_payload(e).len() as u32) =~= bytes.subrange(
                            0,
                            4,
                        ));
                    }
                    let rl = encode_log(rest).len() as int;
                    assert(encode_log(rest) == bytes.skip(4 + n).take(rl));
                    assert(encode_log(h) =~= bytes.take(4 + n + rl)) by {
                        assert(forall|k: int|
                            0 <= k < rl ==> bytes.skip(4 + n).take(rl)[k] == #[trigger] bytes[4 + n
                                + k]);
                    }
                    assert(wf_history(h)) by {
                        assert(forall|i: int|
                            1 <= i < h.len() ==> #[trigger] h[i] == rest[i - 1]);
                    }
                },
                None => {
                    assert(encode_log(h) =~= bytes.take(0));
                },
            }
        }
    }
}

// ---------------------------------------------------------------------------
// Executable envelope codec
// ---------------------------------------------------------------------------

/// Serializes one entry payload.
pub fn make_payload(ts: u64, op: u8, data: Vec<u8>) -> (r: Vec<u8>)
    ensures
        r@ == ser_envelope(ts, op, data@),
        r@.len() == 17 + data@.len(),
{
    let ghost orig = data@;
    let mut out = u64_to_le_bytes(ts);
    out.push(op);
    let mut lenb = u64_to_le_bytes(data.len() as u64);
    out.append(&mut lenb);
    let mut d = data;
    out.append(&mut d);
    proof {
        assert(out@ =~= ser_envelope(ts, op, orig));
    }
    out
}

/// Frames a payload with its 4-byte length header.
pub fn make_frame(payload: &Vec<u8>) -> (r: Vec<u8>)
    requires
        payload@.len() <= u32::MAX,
    ensures
        r@ == frame_bytes(payload@),
{
    let mut out = u32_to_le_bytes(payload.len() as u32);
    let mut body = copy_range(payload, 0, payload.len());
    proof {
        assert(body@ =~= payload@);
    }
    out.append(&mut body);
    out
}

/// Decodes one payload into its parts; see `parse_payload`.
pub fn decode_payload(p: &Vec<u8>) -> (r: Option<(u64, u8, Record)>)
    ensures
        match r {
            Some((ts, op, rec)) => parse_payload(p@) == Some(
                EntryV { timestamp: ts, op: op, rec: rec@ },
            ),
            None => parse_payload(p@) is None,
        },
{
    if p.len() < 17 {
        return None;
    }
    let tsb = copy_range(p, 0, 8);
    let ts = u64_from_le_bytes(tsb.as_slice());
    let op = p[8];
    let dlb = copy_range(p, 9, 17);
    let dl = u64_from_le_bytes(dlb.as_slice());
    if dl != (p.len() - 17) as u64 {
        return None;
    }
    let data = copy_range(p, 17, p.len());
    proof {
        assert(data@ =~= p@.skip(17));
    }
    match json_to_record(&data) {
        Some(rec) => Some((ts, op, rec)),
        None => None,
    }
}

} // verus!
