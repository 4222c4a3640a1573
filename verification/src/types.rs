//! Core data model: log identifiers, log entries, votes and the error
//! taxonomy of the storage layer.

use vstd::prelude::*;

verus! {

/// Identifier of a single replicated log record: an election term together
/// with a position in the log. `LogId`s are ordered first by term, then by
/// index.
#[derive(Clone, Copy, Debug, PartialEq, Eq, Structural)]
pub struct LogId {
    pub term: u64,
    pub index: u64,
}

/// `a` is at most as recent as `b` in the Raft ordering.
pub open spec fn log_id_le(a: LogId, b: LogId) -> bool {
    a.term < b.term || (a.term == b.term && a.index <= b.index)
}

impl LogId {
    /// Executable form of the Raft ordering on log identifiers.
    pub fn le(&self, other: &LogId) -> (r: bool)
        ensures
            r == log_id_le(*self, *other),
    {
        self.term < other.term || (self.term == other.term && self.index <= other.index)
    }
}

/// The node's current ballot: the term it has seen and whom it voted for in
/// that term, if anyone.
#[derive(Clone, Copy, Debug, PartialEq, Eq, Structural)]
pub struct Vote {
    pub term: u64,
    pub voted_for: Option<u64>,
}

/// A membership configuration carried by a membership log entry or by a
/// snapshot: the voting members and the learners, as node identifiers.
#[derive(Clone, Debug, PartialEq, Eq)]
pub struct Membership {
    pub voters: Vec<u64>,
    pub learners: Vec<u64>,
}

/// Mathematical view of a membership configuration.
pub struct MembershipView {
    pub voters: Seq<u64>,
    pub learners: Seq<u64>,
}

impl View for Membership {
    type V = MembershipView;

    open spec fn view(&self) -> MembershipView {
        MembershipView { voters: self.voters@, learners: self.learners@ }
    }
}

/// Payload of a log entry: a heartbeat blank, a membership change, or an
/// opaque application command.
#[derive(Clone, Debug, PartialEq, Eq)]
pub enum Payload {
    Blank,
    Membership(Membership),
    Application(Vec<u8>),
}

/// Mathematical view of a payload.
pub enum PayloadView {
    Blank,
    Membership(MembershipView),
    Application(Seq<u8>),
}

impl View for Payload {
    type V = PayloadView;

    open spec fn view(&self) -> PayloadView {
        match self {
            Payload::Blank => PayloadView::Blank,
            Payload::Membership(m) => PayloadView::Membership(m@),
            Payload::Application(d) => PayloadView::Application(d@),
        }
    }
}

/// One replicated log record.
#[derive(Clone, Debug, PartialEq, Eq)]
pub struct LogEntry {
    pub log_id: LogId,
    pub payload: Payload,
}

/// Mathematical view of a log record.
pub struct EntryView {
    pub log_id: LogId,
    pub payload: PayloadView,
}

impl View for LogEntry {
    type V = EntryView;

    open spec fn view(&self) -> EntryView {
        EntryView { log_id: self.log_id, payload: self.payload@ }
    }
}

/// The log boundaries the consensus engine asks for: the identifier of the
/// last retained entry (falling back to the purge boundary once everything
/// up to it is compacted) and the purge boundary itself.
#[derive(Clone, Copy, Debug, PartialEq, Eq, Structural)]
pub struct LogState {
    pub last_log_id: Option<LogId>,
    pub last_purged_log_id: Option<LogId>,
}

/// A snapshot held by the store: the opaque state-machine bytes, the
/// identifier of the last entry the snapshot subsumes, and the membership
/// configuration in force at that point.
#[derive(Clone, Debug, PartialEq, Eq)]
pub struct Snapshot {
    pub log_id: LogId,
    pub membership: Membership,
    pub data: Vec<u8>,
}

/// Mathematical view of a snapshot.
pub struct SnapshotView {
    pub log_id: LogId,
    pub membership: MembershipView,
    pub data: Seq<u8>,
}

impl View for Snapshot {
    type V = SnapshotView;

    open spec fn view(&self) -> SnapshotView {
        SnapshotView { log_id: self.log_id, membership: self.membership@, data: self.data@ }
    }
}

/// Errors of the storage layer.
///
/// `StorageFailure` is an I/O fault of the durable substrate and is fatal to
/// the operation that hit it; it is never retried here. The remaining
/// variants report caller contract violations and leave the store unchanged.
#[derive(Clone, Copy, Debug, PartialEq, Eq, Structural)]
pub enum StoreError {
    /// The durable substrate reported an I/O fault.
    StorageFailure,
    /// An appended batch was not contiguous with the current log end.
    LogIndexGap,
    /// A truncation would have removed committed or already purged entries.
    TruncateBelowCommitted,
    /// A read asked for an index at or below the purge boundary.
    RequestedPurgedEntry,
    /// A mutation was attempted while another mutation section was open.
    ConcurrentMutationDetected,
}

} // verus!
