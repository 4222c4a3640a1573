//! The log store: the durable record of the replicated log, the node's
//! vote, the commit marker and the current snapshot.
//!
//! All mutation goes through a single `LogStorage` value, which owns the
//! substrate handle exclusively (single-writer discipline). The store's
//! observable state is the mathematical view [`StoreView`]; every
//! operation's contract says how it changes that view, and the
//! well-formedness predicate [`wf_view`] together with the substrate model
//! is an invariant of every operation.

use vstd::prelude::*;
use vstd::assert_seqs_equal;
use vstd::bytes::lemma_auto_spec_u64_to_from_le_bytes;

use crate::types::{LogId, Vote, LogEntry, EntryView, LogState, StoreError};
use crate::codec::{
    enc_u64, enc_entry, enc_vote, enc_state, enc_log_id_record, enc_snapshot,
    payload_encodable, snapshot_encodable,
    encode_entry, encode_vote, encode_state, encode_log_id_record,
    decode_vote, decode_state, decode_log_id_record,
    lemma_vote_round_trip, lemma_state_round_trip, lemma_log_id_record_round_trip,
};
use crate::types::SnapshotView;
use crate::kv::{kv_of, kv_open_temporary, kv_insert, kv_remove, kv_get, kv_flush};

verus! {

// ---------------------------------------------------------------------
// Key layout of the substrate: one record region per logical region.
// ---------------------------------------------------------------------

/// Key of the log entry at `index`: a region tag, then the index bytes.
pub open spec fn log_key(i: u64) -> Seq<u8> {
    seq![1u8] + enc_u64(i)
}

pub open spec fn state_key() -> Seq<u8> {
    seq![0u8]
}

pub open spec fn vote_key() -> Seq<u8> {
    seq![2u8]
}

pub open spec fn committed_key() -> Seq<u8> {
    seq![3u8]
}

pub open spec fn snapshot_key() -> Seq<u8> {
    seq![4u8]
}

/// The keys of distinct records never collide.
proof fn lemma_keys_distinct()
    ensures
        forall|i: u64, j: u64| #[trigger] log_key(i) == #[trigger] log_key(j) ==> i == j,
        forall|i: u64| (#[trigger] log_key(i)) != state_key(),
        forall|i: u64| (#[trigger] log_key(i)) != vote_key(),
        forall|i: u64| (#[trigger] log_key(i)) != committed_key(),
        forall|i: u64| (#[trigger] log_key(i)) != snapshot_key(),
        state_key() != vote_key(),
        state_key() != committed_key(),
        state_key() != snapshot_key(),
        vote_key() != committed_key(),
        vote_key() != snapshot_key(),
        committed_key() != snapshot_key(),
{
    lemma_auto_spec_u64_to_from_le_bytes();
    assert forall|i: u64, j: u64| #[trigger] log_key(i) == #[trigger] log_key(j) implies i == j by {
        assert_seqs_equal!(log_key(i).subrange(1, 9) == enc_u64(i));
        assert_seqs_equal!(log_key(j).subrange(1, 9) == enc_u64(j));
    }
    assert forall|i: u64| (#[trigger] log_key(i)) != state_key() by {
        assert(log_key(i).len() == 9);
    }
    assert forall|i: u64| (#[trigger] log_key(i)) != vote_key() by {
        assert(log_key(i).len() == 9);
    }
    assert forall|i: u64| (#[trigger] log_key(i)) != committed_key() by {
        assert(log_key(i).len() == 9);
    }
    assert forall|i: u64| (#[trigger] log_key(i)) != snapshot_key() by {
        assert(log_key(i).len() == 9);
    }
    assert(state_key()[0] != vote_key()[0]);
    assert(state_key()[0] != committed_key()[0]);
    assert(state_key()[0] != snapshot_key()[0]);
    assert(vote_key()[0] != committed_key()[0]);
    assert(vote_key()[0] != snapshot_key()[0]);
    assert(committed_key()[0] != snapshot_key()[0]);
}

pub(crate) fn log_key_exec(i: u64) -> (r: Vec<u8>)
    ensures
        r@ == log_key(i),
{
    let mut out: Vec<u8> = Vec::new();
    out.push(1u8);
    let mut b = vstd::bytes::u64_to_le_bytes(i);
    out.append(&mut b);
    proof { assert_seqs_equal!(out@ == log_key(i)); }
    out
}

fn single_byte_key(tag: u8) -> (r: Vec<u8>)
    ensures
        r@ == seq![tag],
{
    let mut out: Vec<u8> = Vec::new();
    out.push(tag);
    proof { assert_seqs_equal!(out@ == seq![tag]); }
    out
}

// ---------------------------------------------------------------------
// The mathematical view of a store.
// ---------------------------------------------------------------------

/// Observable state of a log store: the retained entries by index, the
/// log boundaries, the vote, the commit marker, the snapshot, the queue
/// of batches whose durability has not yet been acknowledged, and the
/// failure and mutation-section flags.
#[verifier::ext_equal]
pub struct StoreView {
    pub log: Map<u64, EntryView>,
    pub last_log: Option<LogId>,
    pub purged: Option<LogId>,
    pub vote: Option<Vote>,
    pub committed: Option<LogId>,
    pub snapshot: Option<SnapshotView>,
    pub pending: Seq<u64>,
    pub poisoned: bool,
    pub mutating: bool,
}

/// Index of the purge boundary; zero when nothing was ever purged.
pub open spec fn purged_idx(v: StoreView) -> int {
    match v.purged {
        Some(p) => p.index as int,
        None => 0,
    }
}

/// Index of the last entry the log logically reaches; zero when empty.
pub open spec fn last_idx(v: StoreView) -> int {
    match v.last_log {
        Some(l) => l.index as int,
        None => 0,
    }
}

/// The index the next appended batch must begin at.
pub open spec fn next_index(v: StoreView) -> int {
    match v.last_log {
        Some(l) => l.index as int + 1,
        None => 1,
    }
}

/// Well-formedness of a view: the retained range is exactly the
/// contiguous span between the purge boundary and the last log id,
/// indices match positions, and terms never decrease with the index.
pub open spec fn wf_view(v: StoreView) -> bool {
    &&& (v.last_log is None ==> v.purged is None)
    &&& (match (v.purged, v.last_log) {
        (Some(p), Some(l)) => p.index <= l.index && p.term <= l.term && (p.index == l.index
            ==> p == l),
        _ => true,
    })
    &&& (v.last_log matches Some(l) ==> l.index < u64::MAX)
    &&& (forall|i: u64| #[trigger] v.log.contains_key(i) <==> purged_idx(v) < i <= last_idx(v))
    &&& (forall|i: u64|
        v.log.contains_key(i) ==> (#[trigger] v.log[i]).log_id.index == i && payload_encodable(
            v.log[i].payload,
        ))
    &&& (v.last_log matches Some(l) ==> (purged_idx(v) < last_idx(v) ==> v.log.contains_key(
        l.index,
    ) && v.log[l.index].log_id == l))
    &&& (forall|i: u64, j: u64|
        #[trigger] v.log.contains_key(i) && #[trigger] v.log.contains_key(j) && i <= j
            ==> v.log[i].log_id.term <= v.log[j].log_id.term)
    &&& (v.purged matches Some(p) ==> forall|i: u64|
        v.log.contains_key(i) ==> p.term <= (#[trigger] v.log[i]).log_id.term)
    &&& (v.snapshot matches Some(s) ==> snapshot_encodable(s))
}

/// How a view is laid down in the substrate: every retained entry sits
/// under its log key as its encoding; the vote, commit marker and
/// snapshot records are present exactly when the view holds one; and the
/// state record, when present, holds the current boundaries.
pub open spec fn kv_models(kv: Map<Seq<u8>, Seq<u8>>, v: StoreView) -> bool {
    &&& (forall|i: u64| #[trigger] v.log.contains_key(i) ==> kv.contains_key(log_key(i))
        && kv[log_key(i)] == enc_entry(v.log[i]))
    &&& (match v.vote {
        Some(vt) => kv.contains_key(vote_key()) && kv[vote_key()] == enc_vote(vt),
        None => !kv.contains_key(vote_key()),
    })
    &&& (match v.committed {
        Some(c) => kv.contains_key(committed_key()) && kv[committed_key()] == enc_log_id_record(c),
        None => !kv.contains_key(committed_key()),
    })
    &&& (kv.contains_key(state_key()) ==> kv[state_key()] == enc_state(v.last_log, v.purged))
    &&& (v.last_log is Some || v.purged is Some ==> kv.contains_key(state_key()))
    &&& (match v.snapshot {
        Some(s) => kv.contains_key(snapshot_key()) && kv[snapshot_key()] == enc_snapshot(s),
        None => !kv.contains_key(snapshot_key()),
    })
}

/// The view of a freshly created, empty store.
pub open spec fn empty_view() -> StoreView {
    StoreView {
        log: Map::<u64, EntryView>::empty(),
        last_log: None,
        purged: None,
        vote: None,
        committed: None,
        snapshot: None,
        pending: Seq::<u64>::empty(),
        poisoned: false,
        mutating: false,
    }
}

// ---------------------------------------------------------------------
// The store itself.
// ---------------------------------------------------------------------

/// The durable log store. It owns the substrate handle exclusively; log
/// readers receive read-only clones of the handle and never mutate.
pub struct LogStorage {
    db: sled::Db,
    last_log: Option<LogId>,
    purged: Option<LogId>,
    vote: Option<Vote>,
    committed: Option<LogId>,
    pending: Vec<u64>,
    poisoned: bool,
    mutating: bool,
    log: Ghost<Map<u64, EntryView>>,
    snap: Ghost<Option<SnapshotView>>,
}

impl View for LogStorage {
    type V = StoreView;

    closed spec fn view(&self) -> StoreView {
        StoreView {
            log: self.log@,
            last_log: self.last_log,
            purged: self.purged,
            vote: self.vote,
            committed: self.committed,
            snapshot: self.snap@,
            pending: self.pending@,
            poisoned: self.poisoned,
            mutating: self.mutating,
        }
    }
}

impl LogStorage {
    /// The store's invariant: unless a storage failure has poisoned it,
    /// its view is well formed and the substrate lays it down faithfully.
    pub closed spec fn wf(self) -> bool {
        !self@.poisoned ==> wf_view(self@) && kv_models(kv_of(self.db), self@)
    }

    /// A healthy store has a well-formed view.
    pub proof fn lemma_wf_view(&self)
        requires
            self.wf(),
            !self@.poisoned,
        ensures
            wf_view(self@),
    {
    }

    /// Opens a fresh, empty store on a temporary substrate.
    pub fn new_temporary() -> (r: Result<LogStorage, StoreError>)
        ensures
            match r {
                Ok(s) => s.wf() && s@ == empty_view(),
                Err(e) => e == StoreError::StorageFailure,
            },
    {
        match kv_open_temporary() {
            Ok(db) => {
                let s = LogStorage {
                    db,
                    last_log: None,
                    purged: None,
                    vote: None,
                    committed: None,
                    pending: Vec::new(),
                    poisoned: false,
                    mutating: false,
                    log: Ghost(Map::<u64, EntryView>::empty()),
                    snap: Ghost(None),
                };
                proof {
                    assert(s@ =~= empty_view());
                }
                Ok(s)
            }
            Err(_) => Err(StoreError::StorageFailure),
        }
    }

    /// Opens a mutation section, so that a longer read-modify-write
    /// sequence can assert the single-writer discipline. A second attempt
    /// to open a section before the first is closed is the interleaving
    /// the discipline forbids, and is rejected.
    pub fn begin_mutation(&mut self) -> (r: Result<(), StoreError>)
        requires
            old(self).wf(),
        ensures
            final(self).wf(),
            old(self)@.poisoned ==> r == Err::<(), StoreError>(StoreError::StorageFailure)
                && final(self)@ == old(self)@,
            !old(self)@.poisoned && old(self)@.mutating ==> r == Err::<(), StoreError>(
                StoreError::ConcurrentMutationDetected,
            ) && final(self)@ == old(self)@,
            !old(self)@.poisoned && !old(self)@.mutating ==> r == Ok::<(), StoreError>(())
                && final(self)@ == (StoreView { mutating: true, ..old(self)@ }),
    {
        if self.poisoned {
            return Err(StoreError::StorageFailure);
        }
        if self.mutating {
            return Err(StoreError::ConcurrentMutationDetected);
        }
        self.mutating = true;
        proof {
            assert(self@ =~= (StoreView { mutating: true, ..old(self)@ }));
        }
        Ok(())
    }

    /// Closes the mutation section opened by `begin_mutation`.
    pub fn end_mutation(&mut self)
        requires
            old(self).wf(),
        ensures
            final(self).wf(),
            final(self)@ == (StoreView { mutating: false, ..old(self)@ }),
    {
        self.mutating = false;
        proof {
            assert(self@ =~= (StoreView { mutating: false, ..old(self)@ }));
        }
    }

    /// Reports the current log boundaries. They are consistent, by the
    /// store's invariant, with exactly which entries a reader can fetch:
    /// nothing beyond `last_log_id` exists and nothing at or below
    /// `last_purged_log_id` is retained.
    pub fn get_log_state(&self) -> (r: Result<LogState, StoreError>)
        requires
            self.wf(),
        ensures
            match r {
                Ok(st) => !self@.poisoned && st.last_log_id == self@.last_log
                    && st.last_purged_log_id == self@.purged,
                Err(e) => e == StoreError::StorageFailure && self@.poisoned,
            },
    {
        if self.poisoned {
            return Err(StoreError::StorageFailure);
        }
        Ok(LogState { last_log_id: self.last_log, last_purged_log_id: self.purged })
    }

    /// Persists the vote with synchronous durability: the record is
    /// written and flushed to durable media before the call returns
    /// success. On a substrate fault the store is poisoned and refuses
    /// further mutation.
    pub fn save_vote(&mut self, v: &Vote) -> (r: Result<(), StoreError>)
        requires
            old(self).wf(),
        ensures
            final(self).wf(),
            old(self)@.poisoned ==> r == Err::<(), StoreError>(StoreError::StorageFailure)
                && final(self)@ == old(self)@,
            !old(self)@.poisoned && old(self)@.mutating ==> r == Err::<(), StoreError>(
                StoreError::ConcurrentMutationDetected,
            ) && final(self)@ == old(self)@,
            !old(self)@.poisoned && !old(self)@.mutating ==> match r {
                Ok(_) => final(self)@ == (StoreView { vote: Some(*v), ..old(self)@ }),
                Err(e) => e == StoreError::StorageFailure && final(self)@ == (StoreView {
                    poisoned: true,
                    ..old(self)@
                }),
            },
    {
        if self.poisoned {
            return Err(StoreError::StorageFailure);
        }
        if self.mutating {
            return Err(StoreError::ConcurrentMutationDetected);
        }
        let key = single_byte_key(2u8);
        let val = encode_vote(v);
        match kv_insert(&mut self.db, &key, &val) {
            Ok(_) => {}
            Err(_) => {
                self.poisoned = true;
                proof {
                    assert(self@ =~= (StoreView { poisoned: true, ..old(self)@ }));
                }
                return Err(StoreError::StorageFailure);
            }
        }
        match kv_flush(&self.db) {
            Ok(_) => {}
            Err(_) => {
                self.poisoned = true;
                proof {
                    assert(self@ =~= (StoreView { poisoned: true, ..old(self)@ }));
                }
                return Err(StoreError::StorageFailure);
            }
        }
        self.vote = Some(*v);
        proof {
            lemma_keys_distinct();
            assert(self@ =~= (StoreView { vote: Some(*v), ..old(self)@ }));
        }
        Ok(())
    }

    /// Returns the last durably saved vote, straight from the substrate.
    pub fn read_vote(&self) -> (r: Result<Option<Vote>, StoreError>)
        requires
            self.wf(),
        ensures
            self@.poisoned ==> r == Err::<Option<Vote>, StoreError>(StoreError::StorageFailure),
            !self@.poisoned ==> match r {
                Ok(o) => o == self@.vote,
                Err(e) => e == StoreError::StorageFailure,
            },
    {
        if self.poisoned {
            return Err(StoreError::StorageFailure);
        }
        let key = single_byte_key(2u8);
        match kv_get(&self.db, &key) {
            Ok(Some(bytes)) => {
                proof {
                    lemma_vote_round_trip(self@.vote.unwrap());
                }
                match decode_vote(bytes.as_slice()) {
                    Some(vt) => Ok(Some(vt)),
                    None => Err(StoreError::StorageFailure),
                }
            }
            Ok(None) => Ok(None),
            Err(_) => Err(StoreError::StorageFailure),
        }
    }

    /// Persists the commit marker with synchronous durability. The marker
    /// is independent of the log's truncation state.
    pub fn save_committed(&mut self, c: Option<LogId>) -> (r: Result<(), StoreError>)
        requires
            old(self).wf(),
        ensures
            final(self).wf(),
            old(self)@.poisoned ==> r == Err::<(), StoreError>(StoreError::StorageFailure)
                && final(self)@ == old(self)@,
            !old(self)@.poisoned && old(self)@.mutating ==> r == Err::<(), StoreError>(
                StoreError::ConcurrentMutationDetected,
            ) && final(self)@ == old(self)@,
            !old(self)@.poisoned && !old(self)@.mutating ==> match r {
                Ok(_) => final(self)@ == (StoreView { committed: c, ..old(self)@ }),
                Err(e) => e == StoreError::StorageFailure && final(self)@ == (StoreView {
                    poisoned: true,
                    ..old(self)@
                }),
            },
    {
        if self.poisoned {
            return Err(StoreError::StorageFailure);
        }
        if self.mutating {
            return Err(StoreError::ConcurrentMutationDetected);
        }
        let key = single_byte_key(3u8);
        let write_ok: bool;
        match c {
            Some(id) => {
                let val = encode_log_id_record(&id);
                write_ok = match kv_insert(&mut self.db, &key, &val) {
                    Ok(_) => true,
                    Err(_) => false,
                };
            }
            None => {
                write_ok = match kv_remove(&mut self.db, &key) {
                    Ok(_) => true,
                    Err(_) => false,
                };
            }
        }
        if !write_ok {
            self.poisoned = true;
            proof {
                assert(self@ =~= (StoreView { poisoned: true, ..old(self)@ }));
            }
            return Err(StoreError::StorageFailure);
        }
        match kv_flush(&self.db) {
            Ok(_) => {}
            Err(_) => {
                self.poisoned = true;
                proof {
                    assert(self@ =~= (StoreView { poisoned: true, ..old(self)@ }));
                }
                return Err(StoreError::StorageFailure);
            }
        }
        self.committed = c;
        proof {
            lemma_keys_distinct();
            assert(self@ =~= (StoreView { committed: c, ..old(self)@ }));
        }
        Ok(())
    }

    /// Returns the last durably saved commit marker, straight from the
    /// substrate.
    pub fn read_committed(&self) -> (r: Result<Option<LogId>, StoreError>)
        requires
            self.wf(),
        ensures
            self@.poisoned ==> r == Err::<Option<LogId>, StoreError>(StoreError::StorageFailure),
            !self@.poisoned ==> match r {
                Ok(o) => o == self@.committed,
                Err(e) => e == StoreError::StorageFailure,
            },
    {
        if self.poisoned {
            return Err(StoreError::StorageFailure);
        }
        let key = single_byte_key(3u8);
        match kv_get(&self.db, &key) {
            Ok(Some(bytes)) => {
                proof {
                    lemma_log_id_record_round_trip(self@.committed.unwrap());
                }
                match decode_log_id_record(bytes.as_slice()) {
                    Some(id) => Ok(Some(id)),
                    None => Err(StoreError::StorageFailure),
                }
            }
            Ok(None) => Ok(None),
            Err(_) => Err(StoreError::StorageFailure),
        }
    }
}


// ---------------------------------------------------------------------
// Appending.
// ---------------------------------------------------------------------

/// The views of a batch of entries, in order.
pub open spec fn views_of(es: Seq<LogEntry>) -> Seq<EntryView> {
    es.map_values(|e: LogEntry| e@)
}

/// The batch is contiguous with the current log end: entry `k` sits at
/// `next_index + k`. The final index must also leave room for a
/// successor, a machine limit of the index word.
pub open spec fn batch_contiguous(v: StoreView, es: Seq<EntryView>) -> bool {
    &&& forall|k: int|
        0 <= k < es.len() ==> (#[trigger] es[k]).log_id.index == next_index(v) + k
    &&& es.len() > 0 ==> es[es.len() - 1].log_id.index < u64::MAX
}

/// Terms never decrease across an appended batch, nor from the current
/// log end into it.
pub open spec fn batch_terms_ok(v: StoreView, es: Seq<EntryView>) -> bool {
    &&& forall|k: int|
        0 <= k < es.len() - 1 ==> (#[trigger] es[k]).log_id.term <= es[k + 1].log_id.term
    &&& (v.last_log matches Some(l) ==> (es.len() > 0 ==> l.term <= es[0].log_id.term))
}

/// The log map after a contiguous batch lands at the end.
pub open spec fn log_after_append(v: StoreView, es: Seq<EntryView>) -> Map<u64, EntryView> {
    Map::new(
        |i: u64| v.log.contains_key(i) || next_index(v) <= i < next_index(v) + es.len(),
        |i: u64|
            if next_index(v) <= i < next_index(v) + es.len() {
                es[i - next_index(v)]
            } else {
                v.log[i]
            },
    )
}

/// The durability marker queued for a batch: the last index the log
/// reaches once the batch is written.
pub open spec fn ack_of(v: StoreView, es: Seq<EntryView>) -> u64 {
    if es.len() > 0 {
        es[es.len() - 1].log_id.index
    } else {
        match v.last_log {
            Some(l) => l.index,
            None => 0,
        }
    }
}

/// The store view after a successful append of a contiguous batch.
pub open spec fn append_view(v: StoreView, es: Seq<EntryView>) -> StoreView {
    StoreView {
        log: log_after_append(v, es),
        last_log: if es.len() > 0 {
            Some(es[es.len() - 1].log_id)
        } else {
            v.last_log
        },
        pending: v.pending.push(ack_of(v, es)),
        ..v
    }
}

/// Adjacent term steps make the whole batch term-monotone.
proof fn lemma_terms_pair(es: Seq<EntryView>, a: int, b: int)
    requires
        forall|k: int|
            0 <= k < es.len() - 1 ==> (#[trigger] es[k]).log_id.term <= es[k + 1].log_id.term,
        0 <= a <= b < es.len(),
    ensures
        es[a].log_id.term <= es[b].log_id.term,
    decreases b - a,
{
    if a < b {
        lemma_terms_pair(es, a, b - 1);
        assert(es[b - 1].log_id.term <= es[b].log_id.term);
    }
}

impl LogStorage {
    /// Appends a batch of entries at the end of the log. The batch must
    /// be contiguous with the current end, beginning at the index after
    /// the last log id, else the call is rejected with `LogIndexGap` and
    /// the store is unchanged. The write is not yet durable when the
    /// call returns: a marker for the batch is queued, and `flush`
    /// delivers the markers, in submission order, once the bytes are on
    /// durable media.
    #[verifier::loop_isolation(false)]
    #[verifier::rlimit(60)]
    pub fn append(&mut self, entries: &Vec<LogEntry>) -> (r: Result<(), StoreError>)
        requires
            old(self).wf(),
            batch_terms_ok(old(self)@, views_of(entries@)),
        ensures
            final(self).wf(),
            old(self)@.poisoned ==> r == Err::<(), StoreError>(StoreError::StorageFailure)
                && final(self)@ == old(self)@,
            !old(self)@.poisoned && old(self)@.mutating ==> r == Err::<(), StoreError>(
                StoreError::ConcurrentMutationDetected,
            ) && final(self)@ == old(self)@,
            !old(self)@.poisoned && !old(self)@.mutating && !batch_contiguous(
                old(self)@,
                views_of(entries@),
            ) ==> r == Err::<(), StoreError>(StoreError::LogIndexGap) && final(self)@ == old(
                self,
            )@,
            !old(self)@.poisoned && !old(self)@.mutating && entries@.len() == 0 ==> r == Ok::<
                (),
                StoreError,
            >(()),
            !old(self)@.poisoned && !old(self)@.mutating && batch_contiguous(
                old(self)@,
                views_of(entries@),
            ) ==> match r {
                Ok(_) => final(self)@ == append_view(old(self)@, views_of(entries@)),
                Err(e) => e == StoreError::StorageFailure && final(self)@ == (StoreView {
                    poisoned: true,
                    ..old(self)@
                }),
            },
    {
        let ghost v0 = old(self)@;
        let ghost vs = views_of(entries@);
        if self.poisoned {
            return Err(StoreError::StorageFailure);
        }
        if self.mutating {
            return Err(StoreError::ConcurrentMutationDetected);
        }

        let n: usize = entries.len();

        // First pass: check contiguity (and record, for the proof, that
        // every payload has encodable membership lists).
        let mut expected: u64 = match self.last_log {
            Some(l) => l.index + 1,
            None => 1,
        };
        let mut k: usize = 0;
        while k < n
            invariant
                n == entries@.len(),
                vs == views_of(entries@),
                0 <= k <= n,
                expected == next_index(v0) + k,
                expected <= u64::MAX,
                forall|j: int| 0 <= j < k ==> (#[trigger] vs[j]).log_id.index == next_index(v0) + j,
                forall|j: int| 0 <= j < k ==> payload_encodable((#[trigger] vs[j]).payload),
            decreases n - k,
        {
            let e = &entries[k];
            if e.log_id.index != expected {
                proof {
                    assert(vs[k as int].log_id.index != next_index(v0) + k);
                    assert(!batch_contiguous(v0, vs));
                }
                return Err(StoreError::LogIndexGap);
            }
            match &e.payload {
                crate::types::Payload::Membership(m) => {
                    let _nv: usize = m.voters.len();
                    let _nl: usize = m.learners.len();
                    proof {
                        assert(payload_encodable(vs[k as int].payload));
                    }
                }
                _ => {
                    proof {
                        assert(payload_encodable(vs[k as int].payload));
                    }
                }
            }
            if expected == u64::MAX {
                proof {
                    if batch_contiguous(v0, vs) {
                        assert(vs[vs.len() - 1].log_id.index == next_index(v0) + vs.len() - 1);
                        assert(vs[vs.len() - 1].log_id.index >= next_index(v0) + k);
                    }
                }
                return Err(StoreError::LogIndexGap);
            }
            expected = expected + 1;
            k = k + 1;
        }
        proof {
            assert(batch_contiguous(v0, vs));
        }

        if n == 0 {
            let marker: u64 = match self.last_log {
                Some(l) => l.index,
                None => 0,
            };
            self.pending.push(marker);
            proof {
                assert(views_of(entries@).len() == 0);
                assert(self@.log =~= log_after_append(v0, vs));
                assert(self@ =~= append_view(v0, vs));
            }
            return Ok(());
        }

        // Second pass: write the entries.
        let ghost kv0 = kv_of(old(self).db);
        let mut i: usize = 0;
        while i < n
            invariant
                n == entries@.len(),
                n > 0,
                vs == views_of(entries@),
                0 <= i <= n,
                batch_contiguous(v0, vs),
                forall|j: int| 0 <= j < n ==> payload_encodable((#[trigger] vs[j]).payload),
                !v0.poisoned,
                wf_view(v0),
                kv_models(kv_of(self.db), v0),
                self.last_log == v0.last_log,
                self.purged == v0.purged,
                self.vote == v0.vote,
                self.committed == v0.committed,
                self.pending@ == v0.pending,
                self.poisoned == false,
                self.mutating == false,
                self.log@ == v0.log,
                self.snap@ == v0.snapshot,
                self@ == v0,
                forall|j: int|
                    0 <= j < i ==> kv_of(self.db).contains_key(
                        #[trigger] log_key(vs[j].log_id.index),
                    ) && kv_of(self.db)[log_key(vs[j].log_id.index)] == enc_entry(vs[j]),
            decreases n - i,
        {
            let e = &entries[i];
            let key = log_key_exec(e.log_id.index);
            let val = encode_entry(e);
            match kv_insert(&mut self.db, &key, &val) {
                Ok(_) => {}
                Err(_) => {
                    self.poisoned = true;
                    proof {
                        assert(self@ =~= (StoreView { poisoned: true, ..v0 }));
                    }
                    return Err(StoreError::StorageFailure);
                }
            }
            proof {
                lemma_keys_distinct();
                assert(kv_models(kv_of(self.db), v0)) by {
                    assert forall|q: u64| #[trigger] v0.log.contains_key(q) implies kv_of(
                        self.db,
                    ).contains_key(log_key(q)) && kv_of(self.db)[log_key(q)] == enc_entry(
                        v0.log[q],
                    ) by {
                        assert(q <= last_idx(v0));
                        assert(vs[i as int].log_id.index == next_index(v0) + i);
                        assert(log_key(q) != log_key(vs[i as int].log_id.index));
                    }
                }
            }
            i = i + 1;
        }

        // Record the new boundaries.
        let new_last: LogId = entries[n - 1].log_id;
        let skey = single_byte_key(0u8);
        let sval = encode_state(&Some(new_last), &self.purged);
        match kv_insert(&mut self.db, &skey, &sval) {
            Ok(_) => {}
            Err(_) => {
                self.poisoned = true;
                proof {
                    assert(self@ =~= (StoreView { poisoned: true, ..v0 }));
                }
                return Err(StoreError::StorageFailure);
            }
        }
        self.last_log = Some(new_last);
        self.pending.push(new_last.index);
        proof {
            self.log@ = log_after_append(v0, vs);
        }

        proof {
            lemma_keys_distinct();
            let v1 = self@;
            assert(new_last == vs[vs.len() - 1].log_id);
            assert(v1 =~= append_view(v0, vs));

            // Well-formedness of the new view.
            assert(wf_view(v1)) by {
                assert(new_last.index == next_index(v0) + n - 1);
                assert forall|q: u64| #[trigger] v1.log.contains_key(q) implies purged_idx(v1)
                    < q <= last_idx(v1) by {}
                assert forall|q: u64| purged_idx(v1) < q <= last_idx(v1) implies v1.log.contains_key(
                    q,
                ) by {}
                assert forall|q: u64| v1.log.contains_key(q) implies (#[trigger] v1.log[q]).log_id.index
                    == q && payload_encodable(v1.log[q].payload) by {
                    if next_index(v0) <= q {
                        let j = q - next_index(v0);
                        assert(vs[j].log_id.index == next_index(v0) + j);
                    }
                }
                assert forall|a: u64, b: u64|
                    #[trigger] v1.log.contains_key(a) && #[trigger] v1.log.contains_key(b) && a <= b
                    implies v1.log[a].log_id.term <= v1.log[b].log_id.term by {
                    let nx = next_index(v0);
                    if a < nx && b < nx {
                        assert(v0.log.contains_key(a) && v0.log.contains_key(b));
                    } else if a >= nx && b >= nx {
                        lemma_terms_pair(vs, a - nx, b - nx);
                    } else {
                        // a is an old entry, b a new one
                        assert(v0.log.contains_key(a));
                        let l = v0.last_log.unwrap();
                        assert(v0.log.contains_key(l.index));
                        assert(v0.log[a].log_id.term <= l.term);
                        assert(l.term <= vs[0].log_id.term);
                        lemma_terms_pair(vs, 0, b - nx);
                    }
                }
                if v1.purged is Some {
                    let p = v1.purged.unwrap();
                    assert forall|q: u64| v1.log.contains_key(q) implies p.term <= (
                    #[trigger] v1.log[q]).log_id.term by {
                        let nx = next_index(v0);
                        if q >= nx {
                            let l = v0.last_log.unwrap();
                            assert(p.term <= l.term);
                            assert(l.term <= vs[0].log_id.term);
                            lemma_terms_pair(vs, 0, q - nx);
                        }
                    }
                }
            }

            // The substrate still lays the new view down faithfully.
            assert(kv_models(kv_of(self.db), v1)) by {
                assert forall|q: u64| #[trigger] v1.log.contains_key(q) implies kv_of(
                    self.db,
                ).contains_key(log_key(q)) && kv_of(self.db)[log_key(q)] == enc_entry(
                    v1.log[q],
                ) by {
                    let nx = next_index(v0);
                    if q < nx {
                        assert(v0.log.contains_key(q));
                    } else {
                        let j = q - nx;
                        assert(vs[j].log_id.index == nx + j);
                        assert(log_key(vs[j].log_id.index) == log_key(q));
                    }
                }
            }
        }
        Ok(())
    }

    /// Confirms durability of everything appended so far and delivers
    /// the queued batch markers, in the order the batches were
    /// submitted. Each marker is delivered exactly once: the queue is
    /// drained. On a substrate fault nothing is acknowledged and the
    /// store is poisoned.
    pub fn flush(&mut self) -> (r: Result<Vec<u64>, StoreError>)
        requires
            old(self).wf(),
        ensures
            final(self).wf(),
            old(self)@.poisoned ==> r == Err::<Vec<u64>, StoreError>(StoreError::StorageFailure)
                && final(self)@ == old(self)@,
            !old(self)@.poisoned ==> match r {
                Ok(acks) => acks@ == old(self)@.pending && final(self)@ == (StoreView {
                    pending: Seq::<u64>::empty(),
                    ..old(self)@
                }),
                Err(e) => e == StoreError::StorageFailure && final(self)@ == (StoreView {
                    poisoned: true,
                    ..old(self)@
                }),
            },
    {
        if self.poisoned {
            return Err(StoreError::StorageFailure);
        }
        match kv_flush(&self.db) {
            Ok(_) => {}
            Err(_) => {
                self.poisoned = true;
                proof {
                    assert(self@ =~= (StoreView { poisoned: true, ..old(self)@ }));
                }
                return Err(StoreError::StorageFailure);
            }
        }
        let acks = self.pending.split_off(0);
        proof {
            assert(acks@ == old(self)@.pending);
            assert(self@ =~= (StoreView { pending: Seq::<u64>::empty(), ..old(self)@ }));
        }
        Ok(acks)
    }
}


// ---------------------------------------------------------------------
// Truncation and purging.
// ---------------------------------------------------------------------

/// A truncation at `id` is refused when it would reach committed or
/// already purged entries.
pub open spec fn truncate_blocked(v: StoreView, id: LogId) -> bool {
    ||| (v.committed matches Some(c) && id.index <= c.index)
    ||| (v.purged matches Some(p) && id.index <= p.index)
}

/// The store view after deleting every entry with index at or above `t`.
pub open spec fn truncate_view(v: StoreView, t: u64) -> StoreView {
    StoreView {
        log: Map::new(|i: u64| v.log.contains_key(i) && i < t, |i: u64| v.log[i]),
        last_log: if last_idx(v) < t {
            v.last_log
        } else if t - 1 > purged_idx(v) {
            Some(v.log[(t - 1) as u64].log_id)
        } else {
            v.purged
        },
        ..v
    }
}

/// Whether `id` names a valid purge boundary of `v`: it must not exceed
/// the commit marker, and, unless it is already at or below the purge
/// boundary, it must name a retained entry exactly.
pub open spec fn valid_purge(v: StoreView, id: LogId) -> bool {
    &&& v.committed matches Some(c) && id.index <= c.index
    &&& id.index > purged_idx(v) ==> v.log.contains_key(id.index) && v.log[id.index].log_id == id
}

/// The store view after purging every entry with index at or below
/// `id.index`. Purging at or below the current boundary is a no-op,
/// which makes the operation idempotent.
pub open spec fn purge_view(v: StoreView, id: LogId) -> StoreView {
    if id.index <= purged_idx(v) {
        v
    } else {
        StoreView {
            log: Map::new(|i: u64| v.log.contains_key(i) && i > id.index, |i: u64| v.log[i]),
            purged: Some(id),
            ..v
        }
    }
}

impl LogStorage {
    /// Deletes every entry with index at or above `log_id.index`,
    /// resolving a divergent tail against a new leader's log. Reaching
    /// committed (or purged) entries is a caller bug and is rejected
    /// with `TruncateBelowCommitted`, leaving the store unchanged.
    #[verifier::loop_isolation(false)]
    pub fn truncate(&mut self, log_id: LogId) -> (r: Result<(), StoreError>)
        requires
            old(self).wf(),
        ensures
            final(self).wf(),
            old(self)@.poisoned ==> r == Err::<(), StoreError>(StoreError::StorageFailure)
                && final(self)@ == old(self)@,
            !old(self)@.poisoned && old(self)@.mutating ==> r == Err::<(), StoreError>(
                StoreError::ConcurrentMutationDetected,
            ) && final(self)@ == old(self)@,
            !old(self)@.poisoned && !old(self)@.mutating && truncate_blocked(old(self)@, log_id)
                ==> r == Err::<(), StoreError>(StoreError::TruncateBelowCommitted)
                && final(self)@ == old(self)@,
            !old(self)@.poisoned && !old(self)@.mutating && !truncate_blocked(old(self)@, log_id)
                && last_idx(old(self)@) < log_id.index ==> r == Ok::<(), StoreError>(()),
            !old(self)@.poisoned && !old(self)@.mutating && !truncate_blocked(old(self)@, log_id)
                ==> match r {
                Ok(_) => final(self)@ == truncate_view(old(self)@, log_id.index),
                Err(e) => e == StoreError::StorageFailure && final(self)@ == (StoreView {
                    poisoned: true,
                    ..old(self)@
                }),
            },
    {
        let ghost v0 = old(self)@;
        if self.poisoned {
            return Err(StoreError::StorageFailure);
        }
        if self.mutating {
            return Err(StoreError::ConcurrentMutationDetected);
        }
        match self.committed {
            Some(c) => {
                if log_id.index <= c.index {
                    return Err(StoreError::TruncateBelowCommitted);
                }
            }
            None => {}
        }
        match self.purged {
            Some(p) => {
                if log_id.index <= p.index {
                    return Err(StoreError::TruncateBelowCommitted);
                }
            }
            None => {}
        }
        let t: u64 = log_id.index;
        let last: u64 = match self.last_log {
            Some(l) => l.index,
            None => 0,
        };
        let purged_bound: u64 = match self.purged {
            Some(p) => p.index,
            None => 0,
        };
        if self.last_log.is_none() || last < t {
            // Nothing at or above `t` is retained.
            proof {
                assert(self@.log =~= truncate_view(v0, t).log);
                assert(self@ =~= truncate_view(v0, t));
            }
            return Ok(());
        }

        // Delete the tail, highest region first does not matter: the
        // boundary record is rewritten after the deletions.
        let mut i: u64 = t;
        while i <= last
            invariant
                t <= i <= last + 1,
                self.last_log == v0.last_log,
                self.purged == v0.purged,
                self.vote == v0.vote,
                self.committed == v0.committed,
                self.pending@ == v0.pending,
                self.poisoned == false,
                self.mutating == false,
                self.log@ == v0.log,
                self.snap@ == v0.snapshot,
                self@ == v0,
                forall|q: u64|
                    #[trigger] v0.log.contains_key(q) && !(t <= q < i) ==> kv_of(
                        self.db,
                    ).contains_key(log_key(q)) && kv_of(self.db)[log_key(q)] == enc_entry(
                        v0.log[q],
                    ),
                kv_of(self.db).contains_key(state_key()) == kv_of(old(self).db).contains_key(
                    state_key(),
                ),
                kv_of(self.db).contains_key(state_key()) ==> kv_of(self.db)[state_key()]
                    == enc_state(v0.last_log, v0.purged),
                match v0.vote {
                    Some(vt) => kv_of(self.db).contains_key(vote_key()) && kv_of(
                        self.db,
                    )[vote_key()] == enc_vote(vt),
                    None => !kv_of(self.db).contains_key(vote_key()),
                },
                match v0.committed {
                    Some(c) => kv_of(self.db).contains_key(committed_key()) && kv_of(
                        self.db,
                    )[committed_key()] == enc_log_id_record(c),
                    None => !kv_of(self.db).contains_key(committed_key()),
                },
                match v0.snapshot {
                    Some(sn) => kv_of(self.db).contains_key(snapshot_key()) && kv_of(
                        self.db,
                    )[snapshot_key()] == enc_snapshot(sn),
                    None => !kv_of(self.db).contains_key(snapshot_key()),
                },
            decreases last + 1 - i,
        {
            let key = log_key_exec(i);
            match kv_remove(&mut self.db, &key) {
                Ok(_) => {}
                Err(_) => {
                    self.poisoned = true;
                    proof {
                        assert(self@ =~= (StoreView { poisoned: true, ..v0 }));
                    }
                    return Err(StoreError::StorageFailure);
                }
            }
            proof {
                lemma_keys_distinct();
            }
            i = i + 1;
        }

        // Work out the new end of the log.
        let new_last: Option<LogId>;
        if t > purged_bound + 1 {
            proof {
                assert(purged_idx(v0) < (t - 1) as u64 <= last_idx(v0));
                assert(v0.log.contains_key((t - 1) as u64));
            }
            let key = log_key_exec(t - 1);
            match kv_get(&self.db, &key) {
                Ok(Some(bytes)) => {
                    proof {
                        assert(bytes@ == enc_entry(v0.log[(t - 1) as u64]));
                        crate::codec::lemma_entry_round_trip(v0.log[(t - 1) as u64]);
                    }
                    match crate::codec::decode_entry(bytes.as_slice()) {
                        Some(e) => {
                            new_last = Some(e.log_id);
                        }
                        None => {
                            self.poisoned = true;
                            proof {
                                assert(self@ =~= (StoreView { poisoned: true, ..v0 }));
                            }
                            return Err(StoreError::StorageFailure);
                        }
                    }
                }
                Ok(None) => {
                    // Unreachable: the invariant keeps this entry in the
                    // substrate, so the read cannot miss.
                    self.poisoned = true;
                    proof {
                        assert(false);
                    }
                    return Err(StoreError::StorageFailure);
                }
                Err(_) => {
                    self.poisoned = true;
                    proof {
                        assert(self@ =~= (StoreView { poisoned: true, ..v0 }));
                    }
                    return Err(StoreError::StorageFailure);
                }
            }
        } else {
            new_last = self.purged;
        }

        let skey = single_byte_key(0u8);
        let sval = encode_state(&new_last, &self.purged);
        match kv_insert(&mut self.db, &skey, &sval) {
            Ok(_) => {}
            Err(_) => {
                self.poisoned = true;
                proof {
                    assert(self@ =~= (StoreView { poisoned: true, ..v0 }));
                }
                return Err(StoreError::StorageFailure);
            }
        }
        self.last_log = new_last;
        proof {
            self.log@ = truncate_view(v0, t).log;
        }
        proof {
            lemma_keys_distinct();
            let v1 = self@;
            assert(new_last == truncate_view(v0, t).last_log);
            assert(v1 =~= truncate_view(v0, t));
            assert(wf_view(v1)) by {
                assert forall|q: u64| #[trigger] v1.log.contains_key(q) implies purged_idx(v1) < q
                    <= last_idx(v1) by {}
                assert forall|q: u64| purged_idx(v1) < q <= last_idx(v1) implies v1.log.contains_key(
                    q,
                ) by {}
            }
            assert(kv_models(kv_of(self.db), v1)) by {
                assert forall|q: u64| #[trigger] v1.log.contains_key(q) implies kv_of(
                    self.db,
                ).contains_key(log_key(q)) && kv_of(self.db)[log_key(q)] == enc_entry(
                    v1.log[q],
                ) by {
                    assert(v0.log.contains_key(q) && !(t <= q < last + 1));
                }
            }
        }
        Ok(())
    }

    /// Deletes every entry with index at or below `log_id.index` after
    /// the span was compacted into a snapshot, and advances the purge
    /// boundary. The boundary may only move up to the commit marker,
    /// and must name an entry the store holds (or an already purged
    /// one, in which case the call is a no-op): purging the same
    /// boundary twice leaves the same state as purging it once.
    #[verifier::loop_isolation(false)]
    pub fn purge(&mut self, log_id: LogId) -> (r: Result<(), StoreError>)
        requires
            old(self).wf(),
            !old(self)@.poisoned && !old(self)@.mutating ==> valid_purge(old(self)@, log_id),
        ensures
            final(self).wf(),
            old(self)@.poisoned ==> r == Err::<(), StoreError>(StoreError::StorageFailure)
                && final(self)@ == old(self)@,
            !old(self)@.poisoned && old(self)@.mutating ==> r == Err::<(), StoreError>(
                StoreError::ConcurrentMutationDetected,
            ) && final(self)@ == old(self)@,
            !old(self)@.poisoned && !old(self)@.mutating && log_id.index <= purged_idx(
                old(self)@,
            ) ==> r == Ok::<(), StoreError>(()),
            !old(self)@.poisoned && !old(self)@.mutating ==> match r {
                Ok(_) => final(self)@ == purge_view(old(self)@, log_id),
                Err(e) => e == StoreError::StorageFailure && final(self)@ == (StoreView {
                    poisoned: true,
                    ..old(self)@
                }),
            },
    {
        let ghost v0 = old(self)@;
        if self.poisoned {
            return Err(StoreError::StorageFailure);
        }
        if self.mutating {
            return Err(StoreError::ConcurrentMutationDetected);
        }
        let purged_bound: u64 = match self.purged {
            Some(p) => p.index,
            None => 0,
        };
        if log_id.index <= purged_bound {
            // Already purged this far: idempotent no-op, and no
            // substrate call that could fail.
            return Ok(());
        }

        let mut i: u64 = purged_bound + 1;
        while i <= log_id.index
            invariant
                purged_bound + 1 <= i <= log_id.index + 1,
                valid_purge(v0, log_id),
                log_id.index > purged_idx(v0),
                self.last_log == v0.last_log,
                self.purged == v0.purged,
                self.vote == v0.vote,
                self.committed == v0.committed,
                self.pending@ == v0.pending,
                self.poisoned == false,
                self.mutating == false,
                self.log@ == v0.log,
                self.snap@ == v0.snapshot,
                self@ == v0,
                forall|q: u64|
                    #[trigger] v0.log.contains_key(q) && !(q < i) ==> kv_of(
                        self.db,
                    ).contains_key(log_key(q)) && kv_of(self.db)[log_key(q)] == enc_entry(
                        v0.log[q],
                    ),
                kv_of(self.db).contains_key(state_key()) == kv_of(old(self).db).contains_key(
                    state_key(),
                ),
                kv_of(self.db).contains_key(state_key()) ==> kv_of(self.db)[state_key()]
                    == enc_state(v0.last_log, v0.purged),
                match v0.vote {
                    Some(vt) => kv_of(self.db).contains_key(vote_key()) && kv_of(
                        self.db,
                    )[vote_key()] == enc_vote(vt),
                    None => !kv_of(self.db).contains_key(vote_key()),
                },
                match v0.committed {
                    Some(c) => kv_of(self.db).contains_key(committed_key()) && kv_of(
                        self.db,
                    )[committed_key()] == enc_log_id_record(c),
                    None => !kv_of(self.db).contains_key(committed_key()),
                },
                match v0.snapshot {
                    Some(sn) => kv_of(self.db).contains_key(snapshot_key()) && kv_of(
                        self.db,
                    )[snapshot_key()] == enc_snapshot(sn),
                    None => !kv_of(self.db).contains_key(snapshot_key()),
                },
            decreases log_id.index + 1 - i,
        {
            let key = log_key_exec(i);
            match kv_remove(&mut self.db, &key) {
                Ok(_) => {}
                Err(_) => {
                    self.poisoned = true;
                    proof {
                        assert(self@ =~= (StoreView { poisoned: true, ..v0 }));
                    }
                    return Err(StoreError::StorageFailure);
                }
            }
            proof {
                lemma_keys_distinct();
            }
            i = i + 1;
        }

        let skey = single_byte_key(0u8);
        let sval = encode_state(&self.last_log, &Some(log_id));
        match kv_insert(&mut self.db, &skey, &sval) {
            Ok(_) => {}
            Err(_) => {
                self.poisoned = true;
                proof {
                    assert(self@ =~= (StoreView { poisoned: true, ..v0 }));
                }
                return Err(StoreError::StorageFailure);
            }
        }
        self.purged = Some(log_id);
        proof {
            self.log@ = purge_view(v0, log_id).log;
        }
        proof {
            lemma_keys_distinct();
            let v1 = self@;
            assert(v1 =~= purge_view(v0, log_id));
            assert(wf_view(v1)) by {
                let l = v0.last_log.unwrap();
                assert(v0.log.contains_key(log_id.index));
                assert(v0.log.contains_key(l.index) && v0.log[l.index].log_id == l);
                assert(v0.log[log_id.index].log_id.term <= v0.log[l.index].log_id.term);
                assert forall|q: u64| #[trigger] v1.log.contains_key(q) implies purged_idx(v1) < q
                    <= last_idx(v1) by {}
                assert forall|q: u64| purged_idx(v1) < q <= last_idx(v1) implies v1.log.contains_key(
                    q,
                ) by {}
                if log_id.index == l.index {
                    assert(v0.log[log_id.index].log_id == l);
                }
            }
            assert(kv_models(kv_of(self.db), v1)) by {
                assert forall|q: u64| #[trigger] v1.log.contains_key(q) implies kv_of(
                    self.db,
                ).contains_key(log_key(q)) && kv_of(self.db)[log_key(q)] == enc_entry(
                    v1.log[q],
                ) by {
                    assert(v0.log.contains_key(q) && !(q < log_id.index + 1));
                }
            }
        }
        Ok(())
    }
}

// ---------------------------------------------------------------------
// Laws of the store.
// ---------------------------------------------------------------------

/// Law: in a well-formed store, the boundaries reported by
/// `get_log_state` say exactly which entries are retrievable. Nothing
/// beyond `last_log_id` is retained, nothing at or below the purge
/// boundary is retained, and everything strictly between them is.
pub proof fn lemma_state_matches_retained(v: StoreView)
    requires
        wf_view(v),
    ensures
        forall|i: u64| #[trigger] v.log.contains_key(i) <==> purged_idx(v) < i <= last_idx(v),
        forall|i: u64| i <= purged_idx(v) ==> !(#[trigger] v.log.contains_key(i)),
        v.last_log matches Some(l) ==> forall|i: u64|
            i > l.index ==> !(#[trigger] v.log.contains_key(i)),
        v.last_log is None ==> forall|i: u64| !(#[trigger] v.log.contains_key(i)),
{
}

/// Law: purging the same boundary twice gives the same observable state
/// as purging it once.
pub proof fn lemma_purge_idempotent(v: StoreView, id: LogId)
    ensures
        purge_view(purge_view(v, id), id) == purge_view(v, id),
{
    let v1 = purge_view(v, id);
    if id.index <= purged_idx(v) {
        assert(purge_view(v1, id) == v1);
    } else {
        assert(purged_idx(v1) == id.index);
        assert(purge_view(v1, id) == v1);
    }
}


// ---------------------------------------------------------------------
// Range reads, snapshots, and reopening.
// ---------------------------------------------------------------------

/// The first index a range read actually asks for: entries begin at
/// index one, so a range that starts at zero asks for nothing below
/// one.
pub open spec fn eff_start(start: u64) -> int {
    if start < 1 {
        1
    } else {
        start as int
    }
}

/// How many entries a range read over `[start, end)` returns from a
/// store whose log ends at `last_idx`.
pub open spec fn range_len(v: StoreView, start: u64, end: u64) -> int {
    let es = eff_start(start);
    let cap = if end > last_idx(v) + 1 {
        last_idx(v) + 1
    } else {
        end as int
    };
    if cap > es {
        cap - es
    } else {
        0
    }
}

/// A range read hits the purged region exactly when some index it asks
/// for was purged: the boundary is set and the effective start does not
/// clear it. A start of zero merely skips an index that never exists
/// and is no error.
pub open spec fn range_purged(v: StoreView, start: u64, end: u64) -> bool {
    v.purged is Some && eff_start(start) <= purged_idx(v) && eff_start(start) < end
}

/// The store view after installing `sv` as the current snapshot: the
/// old snapshot is discarded, the purge boundary advances to the
/// snapshot's log id (never backwards), and the entries it subsumes go.
pub open spec fn install_view(v: StoreView, sv: SnapshotView) -> StoreView {
    if sv.log_id.index <= purged_idx(v) {
        StoreView { snapshot: Some(sv), ..v }
    } else {
        StoreView {
            snapshot: Some(sv),
            purged: Some(sv.log_id),
            last_log: if last_idx(v) < sv.log_id.index {
                Some(sv.log_id)
            } else {
                v.last_log
            },
            log: Map::new(
                |i: u64| v.log.contains_key(i) && i > sv.log_id.index,
                |i: u64| v.log[i],
            ),
            ..v
        }
    }
}

/// Whether `sv` may be installed over `v`: its log id must leave room
/// in the index word, and where it lands inside the retained span it
/// must name the stored entry exactly.
pub open spec fn valid_install(v: StoreView, sv: SnapshotView) -> bool {
    &&& sv.log_id.index < u64::MAX
    &&& (sv.log_id.index > purged_idx(v) ==> (sv.log_id.index > last_idx(v) || (
    v.log.contains_key(sv.log_id.index) && v.log[sv.log_id.index].log_id == sv.log_id)))
}

impl LogStorage {
    /// Returns the entries with index in `[start, end)`, in increasing,
    /// contiguous index order, straight from the substrate. A range
    /// that reaches past the end of the log returns only what exists,
    /// and indices that never held an entry (below one) are skipped
    /// without error; only a range that reaches entries actually
    /// purged is rejected, with `RequestedPurgedEntry`.
    #[verifier::loop_isolation(false)]
    pub fn try_get_log_entries(&self, start: u64, end: u64) -> (r: Result<
        Vec<LogEntry>,
        StoreError,
    >)
        requires
            self.wf(),
        ensures
            self@.poisoned ==> r == Err::<Vec<LogEntry>, StoreError>(StoreError::StorageFailure),
            !self@.poisoned && range_purged(self@, start, end) ==> r == Err::<
                Vec<LogEntry>,
                StoreError,
            >(StoreError::RequestedPurgedEntry),
            !self@.poisoned && !range_purged(self@, start, end) && range_len(self@, start, end)
                == 0 ==> r is Ok,
            !self@.poisoned ==> match r {
                Ok(es) => !range_purged(self@, start, end) && es@.len() == range_len(
                    self@,
                    start,
                    end,
                ) && forall|k: int|
                    0 <= k < es@.len() ==> (#[trigger] es@[k])@ == self@.log[(eff_start(start)
                        + k) as u64],
                Err(e) => e == StoreError::StorageFailure || (e
                    == StoreError::RequestedPurgedEntry && range_purged(self@, start, end)),
            },
    {
        if self.poisoned {
            return Err(StoreError::StorageFailure);
        }
        let estart: u64 = if start < 1 {
            1
        } else {
            start
        };
        match self.purged {
            Some(p) => {
                if estart <= p.index && estart < end {
                    return Err(StoreError::RequestedPurgedEntry);
                }
            }
            None => {}
        }
        let cap: u64 = match self.last_log {
            Some(l) => {
                if end > l.index + 1 {
                    l.index + 1
                } else {
                    end
                }
            }
            None => {
                if end > 1 {
                    1
                } else {
                    end
                }
            }
        };
        let mut out: Vec<LogEntry> = Vec::new();
        if estart >= cap {
            return Ok(out);
        }
        let mut i: u64 = estart;
        while i < cap
            invariant
                estart <= i <= cap,
                out@.len() == i - estart,
                forall|k: int|
                    0 <= k < out@.len() ==> (#[trigger] out@[k])@ == self@.log[(estart
                        + k) as u64],
            decreases cap - i,
        {
            proof {
                assert(purged_idx(self@) < i <= last_idx(self@));
                assert(self@.log.contains_key(i));
            }
            let key = log_key_exec(i);
            match kv_get(&self.db, &key) {
                Ok(Some(bytes)) => {
                    proof {
                        assert(bytes@ == enc_entry(self@.log[i]));
                        crate::codec::lemma_entry_round_trip(self@.log[i]);
                    }
                    match crate::codec::decode_entry(bytes.as_slice()) {
                        Some(e) => {
                            out.push(e);
                        }
                        None => {
                            return Err(StoreError::StorageFailure);
                        }
                    }
                }
                Ok(None) => {
                    // Unreachable: the invariant keeps this entry in the
                    // substrate, so the read cannot miss.
                    proof {
                        assert(false);
                    }
                    return Err(StoreError::StorageFailure);
                }
                Err(_) => {
                    return Err(StoreError::StorageFailure);
                }
            }
            i = i + 1;
        }
        Ok(out)
    }

    /// Atomically replaces the current snapshot and advances the purge
    /// boundary to the snapshot's log id; the entries the snapshot
    /// subsumes are removed. The snapshot record is written before the
    /// boundary record: each single-key write is atomic in the
    /// substrate, so an interruption between the two leaves either the
    /// old state entirely or the new snapshot with the old (still
    /// consistent) boundaries, never a torn record.
    #[verifier::loop_isolation(false)]
    pub fn install_snapshot(&mut self, snap: &crate::types::Snapshot) -> (r: Result<
        (),
        StoreError,
    >)
        requires
            old(self).wf(),
            !old(self)@.poisoned && !old(self)@.mutating ==> valid_install(old(self)@, snap@),
        ensures
            final(self).wf(),
            old(self)@.poisoned ==> r == Err::<(), StoreError>(StoreError::StorageFailure)
                && final(self)@ == old(self)@,
            !old(self)@.poisoned && old(self)@.mutating ==> r == Err::<(), StoreError>(
                StoreError::ConcurrentMutationDetected,
            ) && final(self)@ == old(self)@,
            !old(self)@.poisoned && !old(self)@.mutating ==> match r {
                Ok(_) => final(self)@ == install_view(old(self)@, snap@),
                Err(e) => e == StoreError::StorageFailure && (final(self)@.snapshot == old(
                    self,
                )@.snapshot || final(self)@.snapshot == Some(snap@)) && final(self)@ == (StoreView {
                    poisoned: true,
                    snapshot: final(self)@.snapshot,
                    ..old(self)@
                }),
            },
    {
        let ghost v0 = old(self)@;
        if self.poisoned {
            return Err(StoreError::StorageFailure);
        }
        if self.mutating {
            return Err(StoreError::ConcurrentMutationDetected);
        }
        // The membership lists of an executable snapshot always fit the
        // length word of the encoding.
        let _nv: usize = snap.membership.voters.len();
        let _nl: usize = snap.membership.learners.len();
        proof {
            assert(snapshot_encodable(snap@));
        }

        let skey = single_byte_key(4u8);
        let sval = crate::codec::encode_snapshot(snap);
        match kv_insert(&mut self.db, &skey, &sval) {
            Ok(_) => {}
            Err(_) => {
                self.poisoned = true;
                proof {
                    assert(self@ =~= (StoreView { poisoned: true, ..v0 }));
                }
                return Err(StoreError::StorageFailure);
            }
        }
        proof {
            lemma_keys_distinct();
            self.snap@ = Some(snap@);
        }
        let ghost v0s = self@;
        proof {
            assert(v0s == (StoreView { snapshot: Some(snap@), ..v0 }));
            assert(wf_view(v0s));
            assert(kv_models(kv_of(self.db), v0s));
        }

        let purged_bound: u64 = match self.purged {
            Some(p) => p.index,
            None => 0,
        };
        let id = snap.log_id;
        if id.index <= purged_bound {
            // The snapshot does not move the boundary: only the record
            // above was replaced.
            proof {
                assert(self@ =~= install_view(v0, snap@));
            }
            return Ok(());
        }

        let last: u64 = match self.last_log {
            Some(l) => l.index,
            None => 0,
        };
        let stop: u64 = if id.index < last {
            id.index
        } else {
            last
        };

        let mut i: u64 = purged_bound + 1;
        while i <= stop
            invariant
                purged_bound + 1 <= i <= stop + 1,
                stop <= last_idx(v0s),
                self@ == v0s,
                self.purged == v0s.purged,
                self.last_log == v0s.last_log,
                forall|q: u64|
                    #[trigger] v0s.log.contains_key(q) && !(q < i) ==> kv_of(
                        self.db,
                    ).contains_key(log_key(q)) && kv_of(self.db)[log_key(q)] == enc_entry(
                        v0s.log[q],
                    ),
                kv_of(self.db).contains_key(state_key()) ==> kv_of(self.db)[state_key()]
                    == enc_state(v0s.last_log, v0s.purged),
                v0s.last_log is Some || v0s.purged is Some ==> kv_of(self.db).contains_key(
                    state_key(),
                ),
                match v0s.vote {
                    Some(vt) => kv_of(self.db).contains_key(vote_key()) && kv_of(
                        self.db,
                    )[vote_key()] == enc_vote(vt),
                    None => !kv_of(self.db).contains_key(vote_key()),
                },
                match v0s.committed {
                    Some(c) => kv_of(self.db).contains_key(committed_key()) && kv_of(
                        self.db,
                    )[committed_key()] == enc_log_id_record(c),
                    None => !kv_of(self.db).contains_key(committed_key()),
                },
                kv_of(self.db).contains_key(snapshot_key()) && kv_of(self.db)[snapshot_key()]
                    == enc_snapshot(snap@),
            decreases stop + 1 - i,
        {
            let key = log_key_exec(i);
            match kv_remove(&mut self.db, &key) {
                Ok(_) => {}
                Err(_) => {
                    self.poisoned = true;
                    proof {
                        assert(self@ =~= (StoreView {
                            poisoned: true,
                            snapshot: Some(snap@),
                            ..v0
                        }));
                    }
                    return Err(StoreError::StorageFailure);
                }
            }
            proof {
                lemma_keys_distinct();
            }
            i = i + 1;
        }

        let new_last: LogId = match self.last_log {
            Some(l) => {
                if l.index < id.index {
                    id
                } else {
                    l
                }
            }
            None => id,
        };
        let skey2 = single_byte_key(0u8);
        let sval2 = encode_state(&Some(new_last), &Some(id));
        match kv_insert(&mut self.db, &skey2, &sval2) {
            Ok(_) => {}
            Err(_) => {
                self.poisoned = true;
                proof {
                    assert(self@ =~= (StoreView {
                        poisoned: true,
                        snapshot: Some(snap@),
                        ..v0
                    }));
                }
                return Err(StoreError::StorageFailure);
            }
        }
        self.last_log = Some(new_last);
        self.purged = Some(id);
        proof {
            self.log@ = install_view(v0, snap@).log;
        }
        proof {
            lemma_keys_distinct();
            let v1 = self@;
            assert(Some(new_last) == install_view(v0, snap@).last_log);
            assert(v1 =~= install_view(v0, snap@));
            assert(wf_view(v1)) by {
                assert forall|q: u64| #[trigger] v1.log.contains_key(q) implies purged_idx(v1) < q
                    <= last_idx(v1) by {}
                assert forall|q: u64| purged_idx(v1) < q <= last_idx(v1) implies v1.log.contains_key(
                    q,
                ) by {}
                if purged_idx(v0) < id.index <= last_idx(v0) {
                    let l = v0.last_log.unwrap();
                    assert(v0.log.contains_key(id.index) && v0.log[id.index].log_id == id);
                    assert(v0.log.contains_key(l.index) && v0.log[l.index].log_id == l);
                }
            }
            assert(kv_models(kv_of(self.db), v1)) by {
                assert forall|q: u64| #[trigger] v1.log.contains_key(q) implies kv_of(
                    self.db,
                ).contains_key(log_key(q)) && kv_of(self.db)[log_key(q)] == enc_entry(
                    v1.log[q],
                ) by {
                    assert(v0s.log.contains_key(q) && !(q < stop + 1));
                }
            }
        }
        Ok(())
    }

    /// Returns the current snapshot, if one was ever installed,
    /// straight from the substrate.
    pub fn get_current_snapshot(&self) -> (r: Result<Option<crate::types::Snapshot>, StoreError>)
        requires
            self.wf(),
        ensures
            self@.poisoned ==> r == Err::<Option<crate::types::Snapshot>, StoreError>(
                StoreError::StorageFailure,
            ),
            !self@.poisoned ==> match r {
                Ok(o) => match o {
                    Some(s) => self@.snapshot == Some(s@),
                    None => self@.snapshot is None,
                },
                Err(e) => e == StoreError::StorageFailure,
            },
    {
        if self.poisoned {
            return Err(StoreError::StorageFailure);
        }
        let key = single_byte_key(4u8);
        match kv_get(&self.db, &key) {
            Ok(Some(bytes)) => {
                proof {
                    crate::codec::lemma_snapshot_round_trip(self@.snapshot.unwrap());
                }
                match crate::codec::decode_snapshot(bytes.as_slice()) {
                    Some(s) => Ok(Some(s)),
                    None => Err(StoreError::StorageFailure),
                }
            }
            Ok(None) => Ok(None),
            Err(_) => Err(StoreError::StorageFailure),
        }
    }

    /// Rebuilds the store from its durable substrate alone, as a
    /// restart does: the boundary, vote, commit and snapshot records
    /// are read back from disk, and unacknowledged flush markers are
    /// gone. The entry region is not cached, so it needs no eager read:
    /// every entry access goes to the substrate. What was saved before
    /// the restart is exactly what the reopened store reports.
    pub fn reopen(self) -> (r: Result<LogStorage, StoreError>)
        requires
            self.wf(),
            !self@.poisoned,
        ensures
            match r {
                Ok(s) => s.wf() && s@ == (StoreView {
                    pending: Seq::<u64>::empty(),
                    mutating: false,
                    ..self@
                }),
                Err(e) => e == StoreError::StorageFailure,
            },
    {
        let ghost v0 = self@;
        let LogStorage { db, log: glog, .. } = self;

        // Boundaries.
        let skey = single_byte_key(0u8);
        let last_log: Option<LogId>;
        let purged: Option<LogId>;
        match kv_get(&db, &skey) {
            Ok(Some(bytes)) => {
                proof {
                    lemma_state_round_trip(v0.last_log, v0.purged);
                }
                match decode_state(bytes.as_slice()) {
                    Some((l, p)) => {
                        last_log = l;
                        purged = p;
                    }
                    None => {
                        // Unreachable: a record this store wrote decodes,
                        // by the round-trip law.
                        proof {
                            assert(false);
                        }
                        return Err(StoreError::StorageFailure);
                    }
                }
            }
            Ok(None) => {
                last_log = None;
                purged = None;
            }
            Err(_) => {
                return Err(StoreError::StorageFailure);
            }
        }

        // Vote.
        let vkey = single_byte_key(2u8);
        let vote: Option<Vote>;
        match kv_get(&db, &vkey) {
            Ok(Some(bytes)) => {
                proof {
                    lemma_vote_round_trip(v0.vote.unwrap());
                }
                match decode_vote(bytes.as_slice()) {
                    Some(vt) => {
                        vote = Some(vt);
                    }
                    None => {
                        // Unreachable: a record this store wrote decodes,
                        // by the round-trip law.
                        proof {
                            assert(false);
                        }
                        return Err(StoreError::StorageFailure);
                    }
                }
            }
            Ok(None) => {
                vote = None;
            }
            Err(_) => {
                return Err(StoreError::StorageFailure);
            }
        }

        // Commit marker.
        let ckey = single_byte_key(3u8);
        let committed: Option<LogId>;
        match kv_get(&db, &ckey) {
            Ok(Some(bytes)) => {
                proof {
                    lemma_log_id_record_round_trip(v0.committed.unwrap());
                }
                match decode_log_id_record(bytes.as_slice()) {
                    Some(c) => {
                        committed = Some(c);
                    }
                    None => {
                        // Unreachable: a record this store wrote decodes,
                        // by the round-trip law.
                        proof {
                            assert(false);
                        }
                        return Err(StoreError::StorageFailure);
                    }
                }
            }
            Ok(None) => {
                committed = None;
            }
            Err(_) => {
                return Err(StoreError::StorageFailure);
            }
        }

        // Snapshot record: read back to validate its presence.
        let nkey = single_byte_key(4u8);
        let ghost snap_view: Option<SnapshotView>;
        match kv_get(&db, &nkey) {
            Ok(Some(bytes)) => {
                proof {
                    crate::codec::lemma_snapshot_round_trip(v0.snapshot.unwrap());
                }
                match crate::codec::decode_snapshot(bytes.as_slice()) {
                    Some(s) => {
                        proof {
                            snap_view = Some(s@);
                        }
                    }
                    None => {
                        // Unreachable: a record this store wrote decodes,
                        // by the round-trip law.
                        proof {
                            assert(false);
                        }
                        return Err(StoreError::StorageFailure);
                    }
                }
            }
            Ok(None) => {
                proof {
                    snap_view = None;
                }
            }
            Err(_) => {
                return Err(StoreError::StorageFailure);
            }
        }

        let s = LogStorage {
            db,
            last_log,
            purged,
            vote,
            committed,
            pending: Vec::new(),
            poisoned: false,
            mutating: false,
            log: glog,
            snap: Ghost(snap_view),
        };
        proof {
            assert(s@ =~= (StoreView {
                pending: Seq::<u64>::empty(),
                mutating: false,
                ..v0
            }));
        }
        Ok(s)
    }
}


impl LogStorage {
    /// Produces a read-only cursor bound to the store's current
    /// boundaries. The reader holds its own handle and does not block
    /// this store's writes; appends after this call stay invisible to
    /// it, and it never sees a torn record: the substrate's single-key
    /// writes are atomic.
    pub fn get_log_reader(&self) -> (r: crate::reader::LogStorageReader)
        requires
            self.wf(),
            !self@.poisoned,
        ensures
            r.wf(),
            r@.bound == self@.last_log,
            r@.purged_index as int == purged_idx(self@),
    {
        let db2 = crate::kv::kv_clone(&self.db);
        let purged_bound: u64 = match self.purged {
            Some(p) => p.index,
            None => 0,
        };
        crate::reader::LogStorageReader::new(db2, self.last_log, purged_bound)
    }
}


// ---------------------------------------------------------------------
// Opening a store on an existing database.
// ---------------------------------------------------------------------

/// Compares two byte strings.
fn bytes_equal(a: &Vec<u8>, b: &Vec<u8>) -> (r: bool)
    ensures
        r <==> a@ == b@,
{
    if a.len() != b.len() {
        proof {
            assert(a@.len() != b@.len());
        }
        return false;
    }
    let n: usize = a.len();
    let mut i: usize = 0;
    while i < n
        invariant
            n == a@.len() && n == b@.len(),
            0 <= i <= n,
            forall|k: int| 0 <= k < i ==> a@[k] == b@[k],
        decreases n - i,
    {
        if a[i] != b[i] {
            return false;
        }
        i = i + 1;
    }
    proof {
        vstd::assert_seqs_equal!(a@ == b@);
    }
    true
}

impl LogStorage {
    /// Opens (or creates) a store on the database at `path` and
    /// rebuilds the logical state from what is on disk, validating
    /// every record: the boundary, vote, commit and snapshot records
    /// must decode and re-encode to the stored bytes exactly, every
    /// retained entry must sit under its index with a term that never
    /// decreases, and the boundaries must be ordered. Anything else is
    /// corruption and the open fails; a store this function returns is
    /// well formed.
    #[verifier::loop_isolation(false)]
    #[verifier::rlimit(30)]
    pub fn open(path: &str) -> (r: Result<LogStorage, StoreError>)
        ensures
            match r {
                Ok(s) => s.wf() && !s@.poisoned && !s@.mutating && s@.pending
                    == Seq::<u64>::empty(),
                Err(e) => e == StoreError::StorageFailure,
            },
    {
        let db = match crate::kv::kv_open(path) {
            Ok(db) => db,
            Err(_) => {
                return Err(StoreError::StorageFailure);
            }
        };

        // Boundary record.
        let skey = single_byte_key(0u8);
        let last_log: Option<LogId>;
        let purged: Option<LogId>;
        match kv_get(&db, &skey) {
            Ok(Some(bytes)) => {
                match decode_state(bytes.as_slice()) {
                    Some((l, p)) => {
                        let reenc = encode_state(&l, &p);
                        if !bytes_equal(&reenc, &bytes) {
                            return Err(StoreError::StorageFailure);
                        }
                        last_log = l;
                        purged = p;
                    }
                    None => {
                        return Err(StoreError::StorageFailure);
                    }
                }
            }
            Ok(None) => {
                last_log = None;
                purged = None;
            }
            Err(_) => {
                return Err(StoreError::StorageFailure);
            }
        }

        // The boundaries must be ordered and leave index room.
        match (purged, last_log) {
            (Some(p), Some(l)) => {
                if !(p.index <= l.index && p.term <= l.term) {
                    return Err(StoreError::StorageFailure);
                }
                if p.index == l.index && p.term != l.term {
                    return Err(StoreError::StorageFailure);
                }
            }
            (Some(_), None) => {
                return Err(StoreError::StorageFailure);
            }
            _ => {}
        }
        match last_log {
            Some(l) => {
                if l.index == u64::MAX {
                    return Err(StoreError::StorageFailure);
                }
            }
            None => {}
        }

        // Vote record.
        let vkey = single_byte_key(2u8);
        let vote: Option<Vote>;
        match kv_get(&db, &vkey) {
            Ok(Some(bytes)) => {
                match decode_vote(bytes.as_slice()) {
                    Some(vt) => {
                        let reenc = encode_vote(&vt);
                        if !bytes_equal(&reenc, &bytes) {
                            return Err(StoreError::StorageFailure);
                        }
                        vote = Some(vt);
                    }
                    None => {
                        return Err(StoreError::StorageFailure);
                    }
                }
            }
            Ok(None) => {
                vote = None;
            }
            Err(_) => {
                return Err(StoreError::StorageFailure);
            }
        }

        // Commit marker.
        let ckey = single_byte_key(3u8);
        let committed: Option<LogId>;
        match kv_get(&db, &ckey) {
            Ok(Some(bytes)) => {
                match decode_log_id_record(bytes.as_slice()) {
                    Some(c) => {
                        let reenc = encode_log_id_record(&c);
                        if !bytes_equal(&reenc, &bytes) {
                            return Err(StoreError::StorageFailure);
                        }
                        committed = Some(c);
                    }
                    None => {
                        return Err(StoreError::StorageFailure);
                    }
                }
            }
            Ok(None) => {
                committed = None;
            }
            Err(_) => {
                return Err(StoreError::StorageFailure);
            }
        }

        // Snapshot record.
        let nkey = single_byte_key(4u8);
        let snapshot: Ghost<Option<SnapshotView>>;
        match kv_get(&db, &nkey) {
            Ok(Some(bytes)) => {
                match crate::codec::decode_snapshot(bytes.as_slice()) {
                    Some(sn) => {
                        let _nv: usize = sn.membership.voters.len();
                        let _nl: usize = sn.membership.learners.len();
                        let reenc = crate::codec::encode_snapshot(&sn);
                        if !bytes_equal(&reenc, &bytes) {
                            return Err(StoreError::StorageFailure);
                        }
                        snapshot = Ghost(Some(sn@));
                    }
                    None => {
                        return Err(StoreError::StorageFailure);
                    }
                }
            }
            Ok(None) => {
                snapshot = Ghost(None);
            }
            Err(_) => {
                return Err(StoreError::StorageFailure);
            }
        }

        // The retained entries: each must decode to its own index, with
        // canonical bytes and terms that never decrease from the purge
        // boundary upwards.
        let purged_bound: u64 = match purged {
            Some(p) => p.index,
            None => 0,
        };
        let last_bound: u64 = match last_log {
            Some(l) => l.index,
            None => 0,
        };
        let mut prev_term: u64 = match purged {
            Some(p) => p.term,
            None => 0,
        };
        let ghost mut logm = Map::<u64, EntryView>::empty();
        let mut i: u64 = purged_bound + 1;
        while i <= last_bound
            invariant
                purged_bound + 1 <= i <= last_bound + 1,
                purged matches Some(p) ==> p.term <= prev_term,
                forall|q: u64| #[trigger] logm.contains_key(q) <==> purged_bound < q < i,
                forall|q: u64|
                    logm.contains_key(q) ==> (#[trigger] logm[q]).log_id.index == q
                        && payload_encodable(logm[q].payload) && logm[q].log_id.term <= prev_term
                        && kv_of(db).contains_key(log_key(q)) && kv_of(db)[log_key(q)]
                        == enc_entry(logm[q]),
                forall|a: u64, b: u64|
                    #[trigger] logm.contains_key(a) && #[trigger] logm.contains_key(b) && a <= b
                        ==> logm[a].log_id.term <= logm[b].log_id.term,
                purged matches Some(p) ==> (forall|q: u64|
                    logm.contains_key(q) ==> p.term <= (#[trigger] logm[q]).log_id.term),
                i > purged_bound + 1 ==> logm.contains_key((i - 1) as u64) && logm[
                    (i - 1) as u64
                ].log_id.term == prev_term,
                i == last_bound + 1 && last_bound > purged_bound ==> logm.contains_key(last_bound)
                    && logm[last_bound].log_id.term == (match last_log {
                    Some(l) => l.term,
                    None => 0,
                }),
            decreases last_bound + 1 - i,
        {
            let key = log_key_exec(i);
            let e: LogEntry;
            match kv_get(&db, &key) {
                Ok(Some(bytes)) => {
                    match crate::codec::decode_entry(bytes.as_slice()) {
                        Some(d) => {
                            match &d.payload {
                                crate::types::Payload::Membership(m) => {
                                    let _nv: usize = m.voters.len();
                                    let _nl: usize = m.learners.len();
                                }
                                _ => {}
                            }
                            let reenc = encode_entry(&d);
                            if !bytes_equal(&reenc, &bytes) {
                                return Err(StoreError::StorageFailure);
                            }
                            e = d;
                        }
                        None => {
                            return Err(StoreError::StorageFailure);
                        }
                    }
                }
                Ok(None) => {
                    return Err(StoreError::StorageFailure);
                }
                Err(_) => {
                    return Err(StoreError::StorageFailure);
                }
            }
            if e.log_id.index != i {
                return Err(StoreError::StorageFailure);
            }
            if e.log_id.term < prev_term {
                return Err(StoreError::StorageFailure);
            }
            if i == last_bound {
                // The record at the end must carry the advertised id.
                let l = match last_log {
                    Some(l) => l,
                    None => {
                        // Unreachable: a record this store wrote decodes,
                        // by the round-trip law.
                        proof {
                            assert(false);
                        }
                        return Err(StoreError::StorageFailure);
                    }
                };
                if e.log_id.term != l.term {
                    return Err(StoreError::StorageFailure);
                }
            }
            prev_term = e.log_id.term;
            proof {
                logm = logm.insert(i, e@);
            }
            i = i + 1;
        }

        let s = LogStorage {
            db,
            last_log,
            purged,
            vote,
            committed,
            pending: Vec::new(),
            poisoned: false,
            mutating: false,
            log: Ghost(logm),
            snap: snapshot,
        };
        proof {
            let v = s@;
            assert(wf_view(v)) by {
                assert forall|q: u64| #[trigger] v.log.contains_key(q) implies purged_idx(v) < q
                    <= last_idx(v) by {}
                assert forall|q: u64| purged_idx(v) < q <= last_idx(v) implies v.log.contains_key(
                    q,
                ) by {}
            }
            assert(kv_models(kv_of(s.db), v));
        }
        Ok(s)
    }
}

} // verus!
