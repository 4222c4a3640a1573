use raft_log_store::types::{LogId, Vote, Membership, Payload, LogEntry, Snapshot, StoreError};
use raft_log_store::store::LogStorage;

fn blank_entries(term: u64, first: u64, last: u64) -> Vec<LogEntry> {
    let mut out = Vec::new();
    let mut i = first;
    while i <= last {
        out.push(LogEntry { log_id: LogId { term, index: i }, payload: Payload::Blank });
        i += 1;
    }
    out
}

fn store_with(term: u64, first: u64, last: u64) -> LogStorage {
    let mut s = LogStorage::new_temporary().expect("temporary store opens");
    s.append(&blank_entries(term, first, last)).expect("contiguous append succeeds");
    s
}

#[test]
fn fresh_store_is_empty() {
    let s = LogStorage::new_temporary().expect("temporary store opens");
    let st = s.get_log_state().expect("state of a healthy store");
    assert_eq!(st.last_log_id, None);
    assert_eq!(st.last_purged_log_id, None);
    assert_eq!(s.read_vote().expect("read vote"), None);
    assert_eq!(s.read_committed().expect("read committed"), None);
    assert_eq!(s.get_current_snapshot().expect("read snapshot"), None);
}

#[test]
fn log_state_tracks_appends_and_purges() {
    let mut s = store_with(1, 1, 3);
    let st = s.get_log_state().expect("state");
    assert_eq!(st.last_log_id, Some(LogId { term: 1, index: 3 }));
    assert_eq!(st.last_purged_log_id, None);

    // Everything the state advertises is retrievable, nothing more.
    let es = s.try_get_log_entries(1, 100).expect("range read");
    assert_eq!(es.len(), 3);
    for (k, e) in es.iter().enumerate() {
        assert_eq!(e.log_id.index, 1 + k as u64);
    }

    // After purging up to index 1, index 1 is gone and the boundary moved.
    let id1 = LogId { term: 1, index: 1 };
    s.save_committed(Some(LogId { term: 1, index: 2 })).expect("save committed");
    s.purge(id1).expect("purge");
    let st2 = s.get_log_state().expect("state");
    assert_eq!(st2.last_purged_log_id, Some(id1));
    assert_eq!(st2.last_log_id, Some(LogId { term: 1, index: 3 }));
    assert_eq!(s.try_get_log_entries(1, 4), Err(StoreError::RequestedPurgedEntry));
    let rest = s.try_get_log_entries(2, 4).expect("read above the boundary");
    assert_eq!(rest.len(), 2);
}

#[test]
fn append_gap_rejected() {
    let mut s = LogStorage::new_temporary().expect("temporary store opens");
    // The log is empty: the first batch must begin at index 1.
    let gap = vec![LogEntry { log_id: LogId { term: 1, index: 2 }, payload: Payload::Blank }];
    assert_eq!(s.append(&gap), Err(StoreError::LogIndexGap));
    // A batch with an internal hole is rejected as well.
    let holed = vec![
        LogEntry { log_id: LogId { term: 1, index: 1 }, payload: Payload::Blank },
        LogEntry { log_id: LogId { term: 1, index: 3 }, payload: Payload::Blank },
    ];
    assert_eq!(s.append(&holed), Err(StoreError::LogIndexGap));
    // The rejected batches left no trace.
    let st = s.get_log_state().expect("state");
    assert_eq!(st.last_log_id, None);
    assert!(s.append(&blank_entries(1, 1, 1)).is_ok());
}

#[test]
fn truncate_keeps_prefix_and_contiguity() {
    let mut s = store_with(1, 1, 10);
    s.truncate(LogId { term: 1, index: 5 }).expect("truncate the tail");

    // Exactly indices 1..=4 stay retrievable.
    let es = s.try_get_log_entries(1, 20).expect("range read");
    assert_eq!(es.len(), 4);
    for (k, e) in es.iter().enumerate() {
        assert_eq!(e.log_id.index, 1 + k as u64);
    }
    let st = s.get_log_state().expect("state");
    assert_eq!(st.last_log_id, Some(LogId { term: 1, index: 4 }));

    // Re-appending at 6 without first appending 5 is a gap.
    let at6 = vec![LogEntry { log_id: LogId { term: 1, index: 6 }, payload: Payload::Blank }];
    assert_eq!(s.append(&at6), Err(StoreError::LogIndexGap));
    // Appending 5 again restores contiguity.
    assert!(s.append(&blank_entries(1, 5, 5)).is_ok());
    assert!(s.append(&blank_entries(1, 6, 6)).is_ok());
}

#[test]
fn truncate_below_committed_rejected() {
    let mut s = store_with(1, 1, 5);
    s.save_committed(Some(LogId { term: 1, index: 3 })).expect("save committed");
    assert_eq!(
        s.truncate(LogId { term: 1, index: 3 }),
        Err(StoreError::TruncateBelowCommitted)
    );
    assert!(s.truncate(LogId { term: 1, index: 4 }).is_ok());
    let st = s.get_log_state().expect("state");
    assert_eq!(st.last_log_id, Some(LogId { term: 1, index: 3 }));
}

#[test]
fn purge_twice_same_observable_state() {
    let mut s = store_with(2, 1, 5);
    s.save_committed(Some(LogId { term: 2, index: 4 })).expect("save committed");
    let boundary = LogId { term: 2, index: 2 };

    s.purge(boundary).expect("first purge");
    let st1 = s.get_log_state().expect("state");
    let es1 = s.try_get_log_entries(3, 6).expect("read");

    s.purge(boundary).expect("second purge of the same boundary");
    let st2 = s.get_log_state().expect("state");
    let es2 = s.try_get_log_entries(3, 6).expect("read");

    assert_eq!(st1, st2);
    assert_eq!(es1, es2);
    assert_eq!(st2.last_purged_log_id, Some(boundary));
}

#[test]
fn vote_survives_reopen() {
    let mut s = LogStorage::new_temporary().expect("temporary store opens");
    let v = Vote { term: 9, voted_for: Some(2) };
    s.save_vote(&v).expect("save vote");
    let s2 = s.reopen().expect("reopen");
    assert_eq!(s2.read_vote().expect("read vote after restart"), Some(v));
}

#[test]
fn boundaries_survive_reopen() {
    let mut s = store_with(3, 1, 6);
    s.save_committed(Some(LogId { term: 3, index: 5 })).expect("save committed");
    s.purge(LogId { term: 3, index: 2 }).expect("purge");
    s.flush().expect("flush");

    let s2 = s.reopen().expect("reopen");
    let st = s2.get_log_state().expect("state");
    assert_eq!(st.last_log_id, Some(LogId { term: 3, index: 6 }));
    assert_eq!(st.last_purged_log_id, Some(LogId { term: 3, index: 2 }));
    assert_eq!(s2.read_committed().expect("read committed"), Some(LogId { term: 3, index: 5 }));
    let es = s2.try_get_log_entries(3, 7).expect("entries after restart");
    assert_eq!(es.len(), 4);
}

#[test]
fn reader_isolation() {
    let mut s = store_with(1, 1, 10);
    let reader = s.get_log_reader();

    // An append after the reader was created is invisible to it.
    s.append(&blank_entries(1, 11, 11)).expect("append index 11");
    let through_reader = reader.try_get_log_entries(1, 12).expect("reader range");
    assert!(through_reader.len() <= 10);
    assert!(through_reader.iter().all(|e| e.log_id.index != 11));
    let none_at_11 = reader.try_get_log_entries(11, 12).expect("reader past its bound");
    assert_eq!(none_at_11.len(), 0);

    // The store itself, and a fresh reader, do see it.
    let es = s.try_get_log_entries(11, 12).expect("store range");
    assert_eq!(es.len(), 1);
    assert_eq!(es[0].log_id.index, 11);
    let reader2 = s.get_log_reader();
    let es2 = reader2.try_get_log_entries(11, 12).expect("fresh reader range");
    assert_eq!(es2.len(), 1);
    assert_eq!(es2[0].log_id, LogId { term: 1, index: 11 });
}

#[test]
fn reader_rejects_purged_range() {
    let mut s = store_with(1, 1, 6);
    s.save_committed(Some(LogId { term: 1, index: 6 })).expect("save committed");
    s.purge(LogId { term: 1, index: 3 }).expect("purge");
    let reader = s.get_log_reader();
    assert_eq!(
        reader.try_get_log_entries(2, 5),
        Err(StoreError::RequestedPurgedEntry)
    );
    let ok = reader.limited_get_log_entries(4, 7).expect("above the boundary");
    assert_eq!(ok.len(), 3);
}

#[test]
fn concurrent_mutation_rejected() {
    let mut s = store_with(1, 1, 2);
    s.begin_mutation().expect("first mutation section opens");

    // A second writer interleaving without external serialization.
    assert_eq!(s.begin_mutation(), Err(StoreError::ConcurrentMutationDetected));
    assert_eq!(
        s.append(&blank_entries(1, 3, 3)),
        Err(StoreError::ConcurrentMutationDetected)
    );
    assert_eq!(
        s.save_vote(&Vote { term: 1, voted_for: None }),
        Err(StoreError::ConcurrentMutationDetected)
    );
    assert_eq!(
        s.truncate(LogId { term: 1, index: 2 }),
        Err(StoreError::ConcurrentMutationDetected)
    );
    assert_eq!(
        s.save_committed(Some(LogId { term: 1, index: 1 })),
        Err(StoreError::ConcurrentMutationDetected)
    );
    let snap = Snapshot {
        log_id: LogId { term: 1, index: 1 },
        membership: Membership { voters: vec![1], learners: vec![] },
        data: vec![],
    };
    assert_eq!(s.install_snapshot(&snap), Err(StoreError::ConcurrentMutationDetected));

    s.end_mutation();
    assert!(s.append(&blank_entries(1, 3, 3)).is_ok());
}

#[test]
fn flush_delivers_acks_in_submission_order() {
    let mut s = LogStorage::new_temporary().expect("temporary store opens");
    s.append(&blank_entries(1, 1, 2)).expect("first batch");
    s.append(&blank_entries(1, 3, 3)).expect("second batch");
    s.append(&blank_entries(1, 4, 6)).expect("third batch");

    let acks = s.flush().expect("flush");
    assert_eq!(acks, vec![2, 3, 6]);

    // Each marker is delivered exactly once.
    let again = s.flush().expect("second flush");
    assert_eq!(again, Vec::<u64>::new());
}

#[test]
fn committed_marker_round_trip() {
    let mut s = LogStorage::new_temporary().expect("temporary store opens");
    assert_eq!(s.read_committed().expect("read"), None);
    let c = LogId { term: 2, index: 7 };
    s.save_committed(Some(c)).expect("save");
    assert_eq!(s.read_committed().expect("read"), Some(c));
    s.save_committed(None).expect("clear");
    assert_eq!(s.read_committed().expect("read"), None);
}

#[test]
fn snapshot_install_replaces_and_purges() {
    let mut s = store_with(1, 1, 10);
    let snap = Snapshot {
        log_id: LogId { term: 1, index: 5 },
        membership: Membership { voters: vec![1, 2, 3], learners: vec![] },
        data: vec![1, 1, 2, 3, 5, 8],
    };
    s.install_snapshot(&snap).expect("install");

    let got = s.get_current_snapshot().expect("read snapshot");
    assert_eq!(got, Some(snap));

    let st = s.get_log_state().expect("state");
    assert_eq!(st.last_purged_log_id, Some(LogId { term: 1, index: 5 }));
    assert_eq!(st.last_log_id, Some(LogId { term: 1, index: 10 }));
    assert_eq!(s.try_get_log_entries(5, 7), Err(StoreError::RequestedPurgedEntry));
    let es = s.try_get_log_entries(6, 11).expect("the unpurged tail");
    assert_eq!(es.len(), 5);

    // A newer snapshot past the end of the log supersedes the old one.
    let snap2 = Snapshot {
        log_id: LogId { term: 2, index: 20 },
        membership: Membership { voters: vec![1, 2], learners: vec![4] },
        data: vec![9],
    };
    s.install_snapshot(&snap2).expect("install past the end");
    assert_eq!(s.get_current_snapshot().expect("read"), Some(snap2));
    let st2 = s.get_log_state().expect("state");
    assert_eq!(st2.last_log_id, Some(LogId { term: 2, index: 20 }));
    assert_eq!(st2.last_purged_log_id, Some(LogId { term: 2, index: 20 }));
}

#[test]
fn mixed_payloads_survive_storage() {
    let mut s = LogStorage::new_temporary().expect("temporary store opens");
    let batch = vec![
        LogEntry { log_id: LogId { term: 1, index: 1 }, payload: Payload::Blank },
        LogEntry {
            log_id: LogId { term: 1, index: 2 },
            payload: Payload::Membership(Membership { voters: vec![1, 2, 3], learners: vec![7] }),
        },
        LogEntry {
            log_id: LogId { term: 1, index: 3 },
            payload: Payload::Application(vec![42, 0, 42]),
        },
    ];
    s.append(&batch).expect("append");
    let es = s.try_get_log_entries(1, 4).expect("read back");
    assert_eq!(es, batch);
}

#[test]
fn log_id_ordering() {
    let a = LogId { term: 1, index: 9 };
    let b = LogId { term: 2, index: 1 };
    let c = LogId { term: 2, index: 5 };
    assert!(a.le(&b));
    assert!(b.le(&c));
    assert!(!c.le(&b));
    assert!(c.le(&c));
}

#[test]
fn range_from_zero_without_purge_succeeds() {
    let s = store_with(1, 1, 3);
    // Index zero never holds an entry; asking for it is not a purged
    // request, the read simply starts at the first real index.
    let es = s.try_get_log_entries(0, 4).expect("range from zero");
    assert_eq!(es.len(), 3);
    assert_eq!(es[0].log_id.index, 1);

    let reader = s.get_log_reader();
    let re = reader.try_get_log_entries(0, 4).expect("reader range from zero");
    assert_eq!(re.len(), 3);
    assert_eq!(re[0].log_id.index, 1);

    // An empty store serves the same request as an empty result.
    let empty = LogStorage::new_temporary().expect("temporary store opens");
    assert_eq!(empty.try_get_log_entries(0, 10).expect("empty range"), Vec::new());
}

#[test]
fn range_from_zero_after_purge_rejected() {
    let mut s = store_with(1, 1, 4);
    s.save_committed(Some(LogId { term: 1, index: 4 })).expect("save committed");
    s.purge(LogId { term: 1, index: 2 }).expect("purge");
    // Now a range from zero really does ask for purged entries.
    assert_eq!(s.try_get_log_entries(0, 4), Err(StoreError::RequestedPurgedEntry));
    let reader = s.get_log_reader();
    assert_eq!(
        reader.try_get_log_entries(0, 4),
        Err(StoreError::RequestedPurgedEntry)
    );
}
