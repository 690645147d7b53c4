use nyrodb::json::record_to_json;
use nyrodb::models::{JsonVal, LogEntry, Operation, Record};
use nyrodb::storage::LogStorage;

fn rec(fields: Vec<(&str, JsonVal)>) -> Record {
    Record {
        fields: fields.into_iter().map(|(n, v)| (n.to_string(), v)).collect(),
    }
}

fn user(id: u64, email: &str) -> Record {
    rec(vec![
        ("id", JsonVal::UInt(id)),
        ("email", JsonVal::Str(email.to_string())),
    ])
}

fn entry(ts: u64, r: Record) -> LogEntry<Record> {
    LogEntry { timestamp: ts, operation: Operation::Insert, data: r }
}

#[test]
fn append_then_get() {
    let mut st = LogStorage::new(Vec::new());
    assert_eq!(st.current_offset, 0);
    st.append(entry(11, user(1, "a@b"))).expect("append");
    let got = st.get(1).expect("id 1 is indexed");
    assert_eq!(got.timestamp, 11);
    assert_eq!(record_to_json(&got.data), record_to_json(&user(1, "a@b")));
    assert!(st.get(2).is_none());
}

#[test]
fn offset_is_sum_of_frames() {
    let mut st = LogStorage::new(Vec::new());
    let mut expected: u64 = 0;
    for id in 1..4u64 {
        let r = user(id, "a@b");
        let payload_len = 17 + record_to_json(&r).len() as u64;
        st.append(entry(id, r)).expect("append");
        expected += 4 + payload_len;
        assert_eq!(st.current_offset, expected);
    }
    assert_eq!(st.log.len() as u64, st.current_offset);
}

#[test]
fn last_write_wins() {
    let mut st = LogStorage::new(Vec::new());
    st.append(entry(1, user(5, "old@x"))).expect("append");
    st.append(entry(2, user(5, "new@x"))).expect("append");
    let got = st.get(5).expect("id 5 is indexed");
    assert_eq!(got.timestamp, 2);
    assert_eq!(record_to_json(&got.data), record_to_json(&user(5, "new@x")));
    assert_eq!(st.get_all().len(), 1);
}

#[test]
fn rebuild_recovers_everything() {
    let mut st = LogStorage::new(Vec::new());
    for id in 1..6u64 {
        st.append(entry(id, user(id, "a@b"))).expect("append");
    }
    let image = st.log.clone();
    let recovered = LogStorage::new(image);
    assert_eq!(recovered.current_offset, st.current_offset);
    let all = recovered.get_all();
    assert_eq!(all.len(), 5);
    for id in 1..6u64 {
        let got = recovered.get(id).expect("recovered id");
        assert_eq!(record_to_json(&got.data), record_to_json(&user(id, "a@b")));
    }
}

#[test]
fn truncated_tail_is_discarded() {
    let mut st = LogStorage::new(Vec::new());
    st.append(entry(1, user(1, "a@b"))).expect("append");
    st.append(entry(2, user(2, "c@d"))).expect("append");
    let clean_offset = st.current_offset;
    // a torn write: a partial header, then a header promising more bytes
    // than exist
    let mut torn = st.log.clone();
    torn.extend_from_slice(&[9, 0]);
    let recovered = LogStorage::new(torn);
    assert_eq!(recovered.current_offset, clean_offset);
    assert_eq!(recovered.get_all().len(), 2);

    let mut torn2 = st.log.clone();
    torn2.extend_from_slice(&[200, 0, 0, 0, 1, 2, 3]);
    let recovered2 = LogStorage::new(torn2);
    assert_eq!(recovered2.current_offset, clean_offset);
    assert!(recovered2.get(1).is_some());
    assert!(recovered2.get(2).is_some());
}

#[test]
fn secondary_index_tracks_values() {
    let mut st = LogStorage::new(Vec::new());
    st.append(entry(1, user(1, "a@b"))).expect("append");
    st.append(entry(2, user(2, "a@b"))).expect("append");
    st.append(entry(3, user(3, "c@d"))).expect("append");
    let ids = st.secondary.lookup(&"email".to_string(), &b"a@b".to_vec());
    assert_eq!(ids, vec![1, 2]);
    let none = st.secondary.lookup(&"email".to_string(), &b"nope".to_vec());
    assert!(none.is_empty());
    let wrong_field = st.secondary.lookup(&"id".to_string(), &b"1".to_vec());
    assert!(wrong_field.is_empty());
}

#[test]
fn flush_returns_the_unwritten_tail() {
    let mut st = LogStorage::new(Vec::new());
    st.append(entry(1, user(1, "a@b"))).expect("append");
    let tail = st.flush();
    assert_eq!(tail, st.log);
    assert_eq!(st.flushed, st.log.len());
    // a second flush has nothing left
    let again = st.shutdown();
    assert!(again.is_empty());
}

#[test]
fn malformed_record_is_rejected() {
    let mut st = LogStorage::new(Vec::new());
    // a number literal that is really a canonical u64 must be JsonVal::UInt
    let bad = rec(vec![("id", JsonVal::UInt(1)), ("n", JsonVal::Num("5".to_string()))]);
    let before = st.current_offset;
    let err = st.append(entry(1, bad)).expect_err("not well formed");
    assert_eq!(err.message(), "Failed to encode log entry");
    assert_eq!(st.current_offset, before);
    assert!(st.get(1).is_none());
}
