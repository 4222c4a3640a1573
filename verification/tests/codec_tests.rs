use raft_log_store::types::{LogId, Vote, Membership, Payload, LogEntry, Snapshot};
use raft_log_store::codec::{
    encode_entry, decode_entry, encode_vote, decode_vote, encode_state, decode_state,
    encode_log_id_record, decode_log_id_record, encode_snapshot, decode_snapshot,
};

#[test]
fn entry_round_trip_blank() {
    let e = LogEntry { log_id: LogId { term: 3, index: 7 }, payload: Payload::Blank };
    let bytes = encode_entry(&e);
    let back = decode_entry(bytes.as_slice()).expect("a blank entry must decode");
    assert_eq!(back, e);
}

#[test]
fn entry_round_trip_membership() {
    let m = Membership { voters: vec![1, 2, 3], learners: vec![9] };
    let e = LogEntry { log_id: LogId { term: 5, index: 42 }, payload: Payload::Membership(m) };
    let bytes = encode_entry(&e);
    let back = decode_entry(bytes.as_slice()).expect("a membership entry must decode");
    assert_eq!(back, e);
}

#[test]
fn entry_round_trip_application() {
    let e = LogEntry {
        log_id: LogId { term: 1, index: 1 },
        payload: Payload::Application(vec![0, 255, 7, 7, 0]),
    };
    let bytes = encode_entry(&e);
    let back = decode_entry(bytes.as_slice()).expect("an application entry must decode");
    assert_eq!(back, e);
}

#[test]
fn entry_round_trip_empty_application() {
    let e = LogEntry { log_id: LogId { term: 2, index: 9 }, payload: Payload::Application(vec![]) };
    let bytes = encode_entry(&e);
    let back = decode_entry(bytes.as_slice()).expect("an empty command must decode");
    assert_eq!(back, e);
}

#[test]
fn entry_round_trip_empty_membership() {
    let m = Membership { voters: vec![], learners: vec![] };
    let e = LogEntry { log_id: LogId { term: 0, index: 1 }, payload: Payload::Membership(m) };
    let bytes = encode_entry(&e);
    let back = decode_entry(bytes.as_slice()).expect("an empty membership must decode");
    assert_eq!(back, e);
}

#[test]
fn vote_round_trip_with_candidate() {
    let v = Vote { term: 11, voted_for: Some(4) };
    let bytes = encode_vote(&v);
    assert_eq!(decode_vote(bytes.as_slice()), Some(v));
}

#[test]
fn vote_round_trip_without_candidate() {
    let v = Vote { term: 0, voted_for: None };
    let bytes = encode_vote(&v);
    assert_eq!(decode_vote(bytes.as_slice()), Some(v));
}

#[test]
fn vote_decode_rejects_trailing_bytes() {
    let v = Vote { term: 11, voted_for: Some(4) };
    let mut bytes = encode_vote(&v);
    bytes.push(0);
    assert_eq!(decode_vote(bytes.as_slice()), None);
}

#[test]
fn state_record_round_trip() {
    let last = Some(LogId { term: 4, index: 19 });
    let purged = Some(LogId { term: 2, index: 6 });
    let bytes = encode_state(&last, &purged);
    assert_eq!(decode_state(bytes.as_slice()), Some((last, purged)));

    let bytes2 = encode_state(&None, &None);
    assert_eq!(decode_state(bytes2.as_slice()), Some((None, None)));
}

#[test]
fn log_id_record_round_trip() {
    let id = LogId { term: 7, index: 21 };
    let bytes = encode_log_id_record(&id);
    assert_eq!(decode_log_id_record(bytes.as_slice()), Some(id));
}

#[test]
fn snapshot_record_round_trip() {
    let s = Snapshot {
        log_id: LogId { term: 3, index: 30 },
        membership: Membership { voters: vec![1, 2], learners: vec![] },
        data: vec![10, 20, 30],
    };
    let bytes = encode_snapshot(&s);
    let back = decode_snapshot(bytes.as_slice()).expect("a snapshot record must decode");
    assert_eq!(back, s);
}

#[test]
fn entry_decode_rejects_garbage() {
    assert_eq!(decode_entry(&[1, 2, 3]), None);
    // A bad payload tag is rejected even when the log id part is fine.
    let e = LogEntry { log_id: LogId { term: 1, index: 1 }, payload: Payload::Blank };
    let mut bytes = encode_entry(&e);
    let last = bytes.len() - 1;
    bytes[last] = 9;
    assert_eq!(decode_entry(bytes.as_slice()), None);
}
