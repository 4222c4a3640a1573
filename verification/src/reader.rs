//! Read-only cursors over the log, for serving replication to followers
//! while the writer keeps appending.
//!
//! A reader holds its own handle onto the substrate and the log
//! boundaries as they stood when it was created. It never mutates, and
//! it never blocks the writer. Because the tree is shared with a
//! concurrent writer, a reader's reads are validated rather than
//! modelled: every entry it returns decoded correctly and carries
//! exactly the index it was asked for, and nothing at or beyond the
//! creation-time end of the log is ever returned — an append after the
//! reader was created stays invisible until a new reader is taken.

use vstd::prelude::*;

use crate::types::{LogId, LogEntry, StoreError};
use crate::kv::kv_get_shared;

verus! {

/// What a reader remembers of the store it was taken from: the last log
/// id and the purge boundary at creation time.
pub struct ReaderView {
    pub bound: Option<LogId>,
    pub purged_index: u64,
}

/// A read-only, concurrency-safe cursor over the range of entries that
/// were retained when it was created.
pub struct LogStorageReader {
    db: sled::Db,
    bound: Option<LogId>,
    purged_index: u64,
}

impl View for LogStorageReader {
    type V = ReaderView;

    closed spec fn view(&self) -> ReaderView {
        ReaderView { bound: self.bound, purged_index: self.purged_index }
    }
}

/// How many entries a reader can return for `[start, end)`: the range
/// begins at the first real index (entries start at one) and is capped
/// at the reader's creation-time end of the log.
pub open spec fn reader_range_len(rv: ReaderView, start: u64, end: u64) -> int {
    let es = crate::store::eff_start(start);
    let limit = match rv.bound {
        Some(l) => l.index as int + 1,
        None => 1,
    };
    let cap = if end > limit {
        limit
    } else {
        end as int
    };
    if cap > es {
        cap - es
    } else {
        0
    }
}

/// A reader's range read hits the purged region exactly when some index
/// it asks for lies at or below the reader's purge boundary. A start of
/// zero merely skips an index that never exists and is no error.
pub open spec fn reader_range_purged(rv: ReaderView, start: u64, end: u64) -> bool {
    rv.purged_index >= 1 && crate::store::eff_start(start) <= rv.purged_index
        && crate::store::eff_start(start) < end
}

impl LogStorageReader {
    /// The reader's index word leaves room for one past the end.
    pub closed spec fn wf(self) -> bool {
        self@.bound matches Some(l) ==> l.index < u64::MAX
    }

    pub(crate) fn new(db: sled::Db, bound: Option<LogId>, purged_index: u64) -> (r:
        LogStorageReader)
        requires
            bound matches Some(l) ==> l.index < u64::MAX,
        ensures
            r.wf(),
            r@.bound == bound,
            r@.purged_index == purged_index,
    {
        LogStorageReader { db, bound, purged_index }
    }

    /// Returns entries with index in `[start, end)`, in increasing,
    /// contiguous index order with terms that never decrease, never
    /// beyond the end of the log as it stood when the reader was
    /// created. A range that reaches purged entries is rejected with
    /// `RequestedPurgedEntry`; indices that merely never existed are
    /// skipped without error. Entries the writer truncated or replaced
    /// since the reader was created simply no longer exist as read:
    /// the result then stops early, it never misreports.
    #[verifier::loop_isolation(false)]
    pub fn try_get_log_entries(&self, start: u64, end: u64) -> (r: Result<
        Vec<LogEntry>,
        StoreError,
    >)
        requires
            self.wf(),
        ensures
            reader_range_purged(self@, start, end) ==> r == Err::<Vec<LogEntry>, StoreError>(
                StoreError::RequestedPurgedEntry,
            ),
            !reader_range_purged(self@, start, end) && reader_range_len(self@, start, end) == 0
                ==> r is Ok,
            match r {
                Ok(es) => es@.len() <= reader_range_len(self@, start, end) && (forall|k: int|
                    0 <= k < es@.len() ==> (#[trigger] es@[k]).log_id.index
                        == crate::store::eff_start(start) + k) && (forall|k1: int, k2: int|
                    0 <= k1 <= k2 < es@.len() ==> (#[trigger] es@[k1]).log_id.term <= (
                    #[trigger] es@[k2]).log_id.term),
                Err(e) => e == StoreError::StorageFailure || (e
                    == StoreError::RequestedPurgedEntry && reader_range_purged(
                    self@,
                    start,
                    end,
                )),
            },
    {
        let estart: u64 = if start < 1 {
            1
        } else {
            start
        };
        if estart <= self.purged_index && estart < end {
            return Err(StoreError::RequestedPurgedEntry);
        }
        let cap: u64 = match self.bound {
            Some(l) => {
                if end > l.index + 1 {
                    l.index + 1
                } else {
                    end
                }
            }
            None => {
                if end > 1 {
                    1
                } else {
                    end
                }
            }
        };
        let mut out: Vec<LogEntry> = Vec::new();
        if estart >= cap {
            return Ok(out);
        }
        let mut i: u64 = estart;
        let mut prev_term: u64 = 0;
        while i < cap
            invariant
                estart <= i <= cap,
                cap <= estart + reader_range_len(self@, start, end),
                out@.len() == i - estart,
                forall|k: int|
                    0 <= k < out@.len() ==> (#[trigger] out@[k]).log_id.index == estart + k,
                forall|k: int| 0 <= k < out@.len() ==> (#[trigger] out@[k]).log_id.term
                    <= prev_term,
                forall|k1: int, k2: int|
                    0 <= k1 <= k2 < out@.len() ==> (#[trigger] out@[k1]).log_id.term <= (
                    #[trigger] out@[k2]).log_id.term,
            decreases cap - i,
        {
            let key = crate::store::log_key_exec(i);
            match kv_get_shared(&self.db, &key) {
                Ok(Some(bytes)) => {
                    match crate::codec::decode_entry(bytes.as_slice()) {
                        Some(e) => {
                            // A record under the key of index `i` must
                            // carry index `i`; anything else is
                            // corruption, not a stale read.
                            if e.log_id.index != i {
                                return Err(StoreError::StorageFailure);
                            }
                            // A term below its predecessor means the
                            // writer rewrote this suffix since the
                            // reader was created: the entry read no
                            // longer belongs to the prefix already
                            // returned, so stop before it.
                            if e.log_id.term < prev_term {
                                return Ok(out);
                            }
                            prev_term = e.log_id.term;
                            out.push(e);
                        }
                        None => {
                            return Err(StoreError::StorageFailure);
                        }
                    }
                }
                Ok(None) => {
                    // The writer truncated or purged this index since
                    // the reader was created: nothing after it can
                    // exist either.
                    return Ok(out);
                }
                Err(_) => {
                    return Err(StoreError::StorageFailure);
                }
            }
            i = i + 1;
        }
        Ok(out)
    }

    /// Returns a possibly shortened prefix of the entries in
    /// `[start, end)`; a caller that needs the full range checks the
    /// length of the result, as with `try_get_log_entries`.
    pub fn limited_get_log_entries(&self, start: u64, end: u64) -> (r: Result<
        Vec<LogEntry>,
        StoreError,
    >)
        requires
            self.wf(),
        ensures
            reader_range_purged(self@, start, end) ==> r == Err::<Vec<LogEntry>, StoreError>(
                StoreError::RequestedPurgedEntry,
            ),
            !reader_range_purged(self@, start, end) && reader_range_len(self@, start, end) == 0
                ==> r is Ok,
            match r {
                Ok(es) => es@.len() <= reader_range_len(self@, start, end) && (forall|k: int|
                    0 <= k < es@.len() ==> (#[trigger] es@[k]).log_id.index
                        == crate::store::eff_start(start) + k) && (forall|k1: int, k2: int|
                    0 <= k1 <= k2 < es@.len() ==> (#[trigger] es@[k1]).log_id.term <= (
                    #[trigger] es@[k2]).log_id.term),
                Err(e) => e == StoreError::StorageFailure || (e
                    == StoreError::RequestedPurgedEntry && reader_range_purged(
                    self@,
                    start,
                    end,
                )),
            },
    {
        self.try_get_log_entries(start, end)
    }
}

} // verus!
