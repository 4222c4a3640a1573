//! Byte encoding of the records the store persists: log entries, votes,
//! the log-state record and snapshots.
//!
//! Every record kind has a specification-level encoder `enc_*`, a
//! specification-level decoder `dec_*`, and executable functions proved
//! against them. The decoders are cursor style: they return the decoded
//! value together with the bytes that follow it, so that encoders compose
//! by concatenation. The round-trip lemmas state that decoding an encoding
//! yields the original value exactly.

use vstd::prelude::*;
use vstd::bytes::{spec_u64_to_le_bytes, spec_u64_from_le_bytes, lemma_auto_spec_u64_to_from_le_bytes, u64_to_le_bytes, u64_from_le_bytes};
use vstd::slice::{slice_subrange, slice_to_vec};
use vstd::assert_seqs_equal;

use crate::types::{LogId, Vote, Membership, MembershipView, Payload, PayloadView, LogEntry, EntryView, Snapshot, SnapshotView};

verus! {

// ---------------------------------------------------------------------
// Unsigned 64-bit integers, little endian, 8 bytes.
// ---------------------------------------------------------------------

pub open spec fn enc_u64(x: u64) -> Seq<u8> {
    spec_u64_to_le_bytes(x)
}

pub open spec fn dec_u64(s: Seq<u8>) -> Option<(u64, Seq<u8>)> {
    if s.len() >= 8 {
        Some((spec_u64_from_le_bytes(s.subrange(0, 8)), s.subrange(8, s.len() as int)))
    } else {
        None
    }
}

pub proof fn lemma_u64_round_trip(x: u64, rest: Seq<u8>)
    ensures
        dec_u64(enc_u64(x) + rest) == Some((x, rest)),
{
    lemma_auto_spec_u64_to_from_le_bytes();
    let s = enc_u64(x) + rest;
    assert_seqs_equal!(s.subrange(0, 8) == enc_u64(x));
    assert_seqs_equal!(s.subrange(8, s.len() as int) == rest);
}

fn enc_u64_into(out: &mut Vec<u8>, x: u64)
    ensures
        final(out)@ == old(out)@ + enc_u64(x),
{
    let mut b = u64_to_le_bytes(x);
    out.append(&mut b);
}

/// Reads eight little-endian bytes from the front of `b`.
fn dec_u64_exec<'a>(b: &'a [u8]) -> (r: Option<(u64, &'a [u8])>)
    ensures
        match r {
            Some(p) => dec_u64(b@) == Some((p.0, p.1@)),
            None => dec_u64(b@) is None,
        },
{
    if b.len() < 8 {
        None
    } else {
        let head = slice_subrange(b, 0, 8);
        let x = u64_from_le_bytes(head);
        let rest = slice_subrange(b, 8, b.len());
        Some((x, rest))
    }
}

// ---------------------------------------------------------------------
// Optional u64: a presence byte, then the value if present.
// ---------------------------------------------------------------------

pub open spec fn enc_opt_u64(o: Option<u64>) -> Seq<u8> {
    match o {
        None => seq![0u8],
        Some(x) => seq![1u8] + enc_u64(x),
    }
}

pub open spec fn dec_opt_u64(s: Seq<u8>) -> Option<(Option<u64>, Seq<u8>)> {
    if s.len() < 1 {
        None
    } else if s[0] == 0u8 {
        Some((None, s.subrange(1, s.len() as int)))
    } else if s[0] == 1u8 {
        match dec_u64(s.subrange(1, s.len() as int)) {
            Some((x, rest)) => Some((Some(x), rest)),
            None => None,
        }
    } else {
        None
    }
}

pub proof fn lemma_opt_u64_round_trip(o: Option<u64>, rest: Seq<u8>)
    ensures
        dec_opt_u64(enc_opt_u64(o) + rest) == Some((o, rest)),
{
    let s = enc_opt_u64(o) + rest;
    match o {
        None => {
            assert_seqs_equal!(s.subrange(1, s.len() as int) == rest);
        }
        Some(x) => {
            assert_seqs_equal!(s.subrange(1, s.len() as int) == enc_u64(x) + rest);
            lemma_u64_round_trip(x, rest);
        }
    }
}

fn enc_opt_u64_into(out: &mut Vec<u8>, o: &Option<u64>)
    ensures
        final(out)@ == old(out)@ + enc_opt_u64(*o),
{
    match o {
        None => {
            out.push(0u8);
            proof { assert_seqs_equal!(out@ == old(out)@ + enc_opt_u64(*o)); }
        }
        Some(x) => {
            out.push(1u8);
            enc_u64_into(out, *x);
            proof { assert_seqs_equal!(out@ == old(out)@ + enc_opt_u64(*o)); }
        }
    }
}

fn dec_opt_u64_exec<'a>(b: &'a [u8]) -> (r: Option<(Option<u64>, &'a [u8])>)
    ensures
        match r {
            Some(p) => dec_opt_u64(b@) == Some((p.0, p.1@)),
            None => dec_opt_u64(b@) is None,
        },
{
    if b.len() < 1 {
        return None;
    }
    let tag = *vstd::slice::slice_index_get(b, 0);
    let rest = slice_subrange(b, 1, b.len());
    if tag == 0u8 {
        Some((None, rest))
    } else if tag == 1u8 {
        match dec_u64_exec(rest) {
            Some((x, rest2)) => Some((Some(x), rest2)),
            None => None,
        }
    } else {
        None
    }
}

// ---------------------------------------------------------------------
// Log identifiers: term, then index.
// ---------------------------------------------------------------------

pub open spec fn enc_log_id(id: LogId) -> Seq<u8> {
    enc_u64(id.term) + enc_u64(id.index)
}

pub open spec fn dec_log_id(s: Seq<u8>) -> Option<(LogId, Seq<u8>)> {
    match dec_u64(s) {
        None => None,
        Some((term, r1)) => match dec_u64(r1) {
            None => None,
            Some((index, r2)) => Some((LogId { term, index }, r2)),
        },
    }
}

pub proof fn lemma_log_id_round_trip(id: LogId, rest: Seq<u8>)
    ensures
        dec_log_id(enc_log_id(id) + rest) == Some((id, rest)),
{
    assert_seqs_equal!(enc_log_id(id) + rest == enc_u64(id.term) + (enc_u64(id.index) + rest));
    lemma_u64_round_trip(id.term, enc_u64(id.index) + rest);
    lemma_u64_round_trip(id.index, rest);
}

fn enc_log_id_into(out: &mut Vec<u8>, id: &LogId)
    ensures
        final(out)@ == old(out)@ + enc_log_id(*id),
{
    enc_u64_into(out, id.term);
    enc_u64_into(out, id.index);
    proof { assert_seqs_equal!(out@ == old(out)@ + enc_log_id(*id)); }
}

fn dec_log_id_exec<'a>(b: &'a [u8]) -> (r: Option<(LogId, &'a [u8])>)
    ensures
        match r {
            Some(p) => dec_log_id(b@) == Some((p.0, p.1@)),
            None => dec_log_id(b@) is None,
        },
{
    match dec_u64_exec(b) {
        None => None,
        Some((term, r1)) => match dec_u64_exec(r1) {
            None => None,
            Some((index, r2)) => Some((LogId { term, index }, r2)),
        },
    }
}

// ---------------------------------------------------------------------
// Optional log identifiers.
// ---------------------------------------------------------------------

pub open spec fn enc_opt_log_id(o: Option<LogId>) -> Seq<u8> {
    match o {
        None => seq![0u8],
        Some(id) => seq![1u8] + enc_log_id(id),
    }
}

pub open spec fn dec_opt_log_id(s: Seq<u8>) -> Option<(Option<LogId>, Seq<u8>)> {
    if s.len() < 1 {
        None
    } else if s[0] == 0u8 {
        Some((None, s.subrange(1, s.len() as int)))
    } else if s[0] == 1u8 {
        match dec_log_id(s.subrange(1, s.len() as int)) {
            Some((id, rest)) => Some((Some(id), rest)),
            None => None,
        }
    } else {
        None
    }
}

pub proof fn lemma_opt_log_id_round_trip(o: Option<LogId>, rest: Seq<u8>)
    ensures
        dec_opt_log_id(enc_opt_log_id(o) + rest) == Some((o, rest)),
{
    let s = enc_opt_log_id(o) + rest;
    match o {
        None => {
            assert_seqs_equal!(s.subrange(1, s.len() as int) == rest);
        }
        Some(id) => {
            assert_seqs_equal!(s.subrange(1, s.len() as int) == enc_log_id(id) + rest);
            lemma_log_id_round_trip(id, rest);
        }
    }
}

fn enc_opt_log_id_into(out: &mut Vec<u8>, o: &Option<LogId>)
    ensures
        final(out)@ == old(out)@ + enc_opt_log_id(*o),
{
    match o {
        None => {
            out.push(0u8);
            proof { assert_seqs_equal!(out@ == old(out)@ + enc_opt_log_id(*o)); }
        }
        Some(id) => {
            out.push(1u8);
            enc_log_id_into(out, id);
            proof { assert_seqs_equal!(out@ == old(out)@ + enc_opt_log_id(*o)); }
        }
    }
}

fn dec_opt_log_id_exec<'a>(b: &'a [u8]) -> (r: Option<(Option<LogId>, &'a [u8])>)
    ensures
        match r {
            Some(p) => dec_opt_log_id(b@) == Some((p.0, p.1@)),
            None => dec_opt_log_id(b@) is None,
        },
{
    if b.len() < 1 {
        return None;
    }
    let tag = *vstd::slice::slice_index_get(b, 0);
    let rest = slice_subrange(b, 1, b.len());
    if tag == 0u8 {
        Some((None, rest))
    } else if tag == 1u8 {
        match dec_log_id_exec(rest) {
            Some((id, rest2)) => Some((Some(id), rest2)),
            None => None,
        }
    } else {
        None
    }
}

// ---------------------------------------------------------------------
// Vote records. A vote is encoded as its term followed by the optional
// node identifier it was cast for; a decoder accepts no trailing bytes.
// ---------------------------------------------------------------------

pub open spec fn enc_vote(v: Vote) -> Seq<u8> {
    enc_u64(v.term) + enc_opt_u64(v.voted_for)
}

pub open spec fn dec_vote(s: Seq<u8>) -> Option<Vote> {
    match dec_u64(s) {
        None => None,
        Some((term, r1)) => match dec_opt_u64(r1) {
            None => None,
            Some((voted_for, r2)) => if r2.len() == 0 {
                Some(Vote { term, voted_for })
            } else {
                None
            },
        },
    }
}

/// Law: encoding a vote and decoding the bytes yields the vote unchanged.
pub proof fn lemma_vote_round_trip(v: Vote)
    ensures
        dec_vote(enc_vote(v)) == Some(v),
{
    assert_seqs_equal!(enc_vote(v) == enc_u64(v.term) + (enc_opt_u64(v.voted_for) + Seq::<u8>::empty()));
    lemma_u64_round_trip(v.term, enc_opt_u64(v.voted_for) + Seq::<u8>::empty());
    assert_seqs_equal!(enc_opt_u64(v.voted_for) + Seq::<u8>::empty() == enc_opt_u64(v.voted_for) + Seq::<u8>::empty());
    lemma_opt_u64_round_trip(v.voted_for, Seq::<u8>::empty());
}

/// Encodes a vote record.
pub fn encode_vote(v: &Vote) -> (r: Vec<u8>)
    ensures
        r@ == enc_vote(*v),
{
    let mut out: Vec<u8> = Vec::new();
    enc_u64_into(&mut out, v.term);
    enc_opt_u64_into(&mut out, &v.voted_for);
    proof {
        assert_seqs_equal!(out@ == enc_vote(*v));
    }
    out
}

/// Decodes a vote record; rejects malformed or trailing bytes.
pub fn decode_vote(b: &[u8]) -> (r: Option<Vote>)
    ensures
        r == dec_vote(b@),
{
    match dec_u64_exec(b) {
        None => None,
        Some((term, r1)) => match dec_opt_u64_exec(r1) {
            None => None,
            Some((voted_for, r2)) => if r2.len() == 0 {
                Some(Vote { term, voted_for })
            } else {
                None
            },
        },
    }
}

// ---------------------------------------------------------------------
// The log-state record: the last log identifier and the purge boundary.
// ---------------------------------------------------------------------

pub open spec fn enc_state(last: Option<LogId>, purged: Option<LogId>) -> Seq<u8> {
    enc_opt_log_id(last) + enc_opt_log_id(purged)
}

pub open spec fn dec_state(s: Seq<u8>) -> Option<(Option<LogId>, Option<LogId>)> {
    match dec_opt_log_id(s) {
        None => None,
        Some((last, r1)) => match dec_opt_log_id(r1) {
            None => None,
            Some((purged, r2)) => if r2.len() == 0 {
                Some((last, purged))
            } else {
                None
            },
        },
    }
}

/// Law: the log-state record round-trips exactly.
pub proof fn lemma_state_round_trip(last: Option<LogId>, purged: Option<LogId>)
    ensures
        dec_state(enc_state(last, purged)) == Some((last, purged)),
{
    assert_seqs_equal!(enc_state(last, purged) ==
        enc_opt_log_id(last) + (enc_opt_log_id(purged) + Seq::<u8>::empty()));
    lemma_opt_log_id_round_trip(last, enc_opt_log_id(purged) + Seq::<u8>::empty());
    lemma_opt_log_id_round_trip(purged, Seq::<u8>::empty());
}

/// Encodes the log-state record.
pub fn encode_state(last: &Option<LogId>, purged: &Option<LogId>) -> (r: Vec<u8>)
    ensures
        r@ == enc_state(*last, *purged),
{
    let mut out: Vec<u8> = Vec::new();
    enc_opt_log_id_into(&mut out, last);
    enc_opt_log_id_into(&mut out, purged);
    proof {
        assert_seqs_equal!(out@ == enc_state(*last, *purged));
    }
    out
}

/// Decodes the log-state record; rejects malformed or trailing bytes.
pub fn decode_state(b: &[u8]) -> (r: Option<(Option<LogId>, Option<LogId>)>)
    ensures
        r == dec_state(b@),
{
    match dec_opt_log_id_exec(b) {
        None => None,
        Some((last, r1)) => match dec_opt_log_id_exec(r1) {
            None => None,
            Some((purged, r2)) => if r2.len() == 0 {
                Some((last, purged))
            } else {
                None
            },
        },
    }
}

// ---------------------------------------------------------------------
// Lists of node identifiers: a count, then that many u64 values.
// ---------------------------------------------------------------------

pub open spec fn enc_u64s(ids: Seq<u64>) -> Seq<u8>
    decreases ids.len(),
{
    if ids.len() == 0 {
        Seq::<u8>::empty()
    } else {
        enc_u64(ids[0]) + enc_u64s(ids.drop_first())
    }
}

pub open spec fn enc_u64_list(ids: Seq<u64>) -> Seq<u8> {
    enc_u64(ids.len() as u64) + enc_u64s(ids)
}

pub open spec fn dec_u64s(s: Seq<u8>, n: nat) -> Option<(Seq<u64>, Seq<u8>)>
    decreases n,
{
    if n == 0 {
        Some((Seq::<u64>::empty(), s))
    } else {
        match dec_u64(s) {
            None => None,
            Some((x, r1)) => match dec_u64s(r1, (n - 1) as nat) {
                None => None,
                Some((ids, r2)) => Some((seq![x] + ids, r2)),
            },
        }
    }
}

pub open spec fn dec_u64_list(s: Seq<u8>) -> Option<(Seq<u64>, Seq<u8>)> {
    match dec_u64(s) {
        None => None,
        Some((n, r1)) => dec_u64s(r1, n as nat),
    }
}

pub proof fn lemma_u64s_round_trip(ids: Seq<u64>, rest: Seq<u8>)
    ensures
        dec_u64s(enc_u64s(ids) + rest, ids.len()) == Some((ids, rest)),
    decreases ids.len(),
{
    if ids.len() == 0 {
        assert_seqs_equal!(enc_u64s(ids) + rest == rest);
        assert_seqs_equal!(Seq::<u64>::empty() == ids);
    } else {
        let tail = ids.drop_first();
        assert_seqs_equal!(enc_u64s(ids) + rest == enc_u64(ids[0]) + (enc_u64s(tail) + rest));
        lemma_u64_round_trip(ids[0], enc_u64s(tail) + rest);
        lemma_u64s_round_trip(tail, rest);
        assert_seqs_equal!(seq![ids[0]] + tail == ids);
    }
}

pub proof fn lemma_u64_list_round_trip(ids: Seq<u64>, rest: Seq<u8>)
    requires
        ids.len() <= u64::MAX,
    ensures
        dec_u64_list(enc_u64_list(ids) + rest) == Some((ids, rest)),
{
    assert_seqs_equal!(enc_u64_list(ids) + rest ==
        enc_u64(ids.len() as u64) + (enc_u64s(ids) + rest));
    lemma_u64_round_trip(ids.len() as u64, enc_u64s(ids) + rest);
    lemma_u64s_round_trip(ids, rest);
}

fn enc_u64_list_into(out: &mut Vec<u8>, ids: &Vec<u64>)
    ensures
        final(out)@ == old(out)@ + enc_u64_list(ids@),
{
    enc_u64_into(out, ids.len() as u64);
    let n: usize = ids.len();
    let mut i: usize = 0;
    while i < n
        invariant
            n == ids@.len(),
            i <= n,
            out@ == old(out)@ + enc_u64(ids@.len() as u64) + enc_u64s(ids@.take(i as int)),
        decreases n - i,
    {
        enc_u64_into(out, ids[i]);
        proof {
            lemma_enc_u64s_snoc(ids@.take(i as int), ids@[i as int]);
            assert_seqs_equal!(ids@.take(i as int).push(ids@[i as int]) == ids@.take(i + 1 as int));
        }
        i = i + 1;
    }
    proof {
        assert_seqs_equal!(ids@.take(n as int) == ids@);
        assert_seqs_equal!(out@ == old(out)@ + enc_u64_list(ids@));
    }
}

/// Appending one value to a list extends its body encoding at the end.
proof fn lemma_enc_u64s_snoc(ids: Seq<u64>, x: u64)
    ensures
        enc_u64s(ids.push(x)) == enc_u64s(ids) + enc_u64(x),
    decreases ids.len(),
{
    lemma_auto_spec_u64_to_from_le_bytes();
    if ids.len() == 0 {
        assert(ids.push(x)[0] == x);
        assert_seqs_equal!(ids.push(x).drop_first() == Seq::<u64>::empty());
        assert(enc_u64s(ids.push(x).drop_first()) == Seq::<u8>::empty());
        assert_seqs_equal!(enc_u64s(ids.push(x)) == enc_u64s(ids) + enc_u64(x));
    } else {
        assert(ids.push(x)[0] == ids[0]);
        assert_seqs_equal!(ids.push(x).drop_first() == ids.drop_first().push(x));
        lemma_enc_u64s_snoc(ids.drop_first(), x);
        assert(enc_u64s(ids.push(x)) == enc_u64(ids[0]) + (enc_u64s(ids.drop_first()) + enc_u64(x)));
        assert_seqs_equal!(enc_u64(ids[0]) + (enc_u64s(ids.drop_first()) + enc_u64(x)) ==
            (enc_u64(ids[0]) + enc_u64s(ids.drop_first())) + enc_u64(x));
    }
}

fn dec_u64s_exec<'a>(b: &'a [u8], n: u64) -> (r: Option<(Vec<u64>, &'a [u8])>)
    ensures
        match r {
            Some(p) => dec_u64s(b@, n as nat) == Some((p.0@, p.1@)),
            None => dec_u64s(b@, n as nat) is None,
        },
    decreases n,
{
    if n == 0 {
        Some((Vec::new(), b))
    } else {
        match dec_u64_exec(b) {
            None => None,
            Some((x, r1)) => match dec_u64s_exec(r1, n - 1) {
                None => None,
                Some((mut ids, r2)) => {
                    ids.insert(0, x);
                    proof {
                        assert_seqs_equal!(ids@ == seq![x] + ids@.drop_first());
                    }
                    Some((ids, r2))
                }
            },
        }
    }
}

fn dec_u64_list_exec<'a>(b: &'a [u8]) -> (r: Option<(Vec<u64>, &'a [u8])>)
    ensures
        match r {
            Some(p) => dec_u64_list(b@) == Some((p.0@, p.1@)),
            None => dec_u64_list(b@) is None,
        },
{
    match dec_u64_exec(b) {
        None => None,
        Some((n, r1)) => dec_u64s_exec(r1, n),
    }
}

// ---------------------------------------------------------------------
// Membership configurations: the voters, then the learners.
// ---------------------------------------------------------------------

pub open spec fn enc_membership(m: MembershipView) -> Seq<u8> {
    enc_u64_list(m.voters) + enc_u64_list(m.learners)
}

pub open spec fn dec_membership(s: Seq<u8>) -> Option<(MembershipView, Seq<u8>)> {
    match dec_u64_list(s) {
        None => None,
        Some((voters, r1)) => match dec_u64_list(r1) {
            None => None,
            Some((learners, r2)) => Some((MembershipView { voters, learners }, r2)),
        },
    }
}

pub proof fn lemma_membership_round_trip(m: MembershipView, rest: Seq<u8>)
    requires
        m.voters.len() <= u64::MAX,
        m.learners.len() <= u64::MAX,
    ensures
        dec_membership(enc_membership(m) + rest) == Some((m, rest)),
{
    assert_seqs_equal!(enc_membership(m) + rest ==
        enc_u64_list(m.voters) + (enc_u64_list(m.learners) + rest));
    lemma_u64_list_round_trip(m.voters, enc_u64_list(m.learners) + rest);
    lemma_u64_list_round_trip(m.learners, rest);
}

fn enc_membership_into(out: &mut Vec<u8>, m: &Membership)
    ensures
        final(out)@ == old(out)@ + enc_membership(m@),
{
    enc_u64_list_into(out, &m.voters);
    enc_u64_list_into(out, &m.learners);
    proof { assert_seqs_equal!(out@ == old(out)@ + enc_membership(m@)); }
}

fn dec_membership_exec<'a>(b: &'a [u8]) -> (r: Option<(Membership, &'a [u8])>)
    ensures
        match r {
            Some(p) => dec_membership(b@) == Some((p.0@, p.1@)),
            None => dec_membership(b@) is None,
        },
{
    match dec_u64_list_exec(b) {
        None => None,
        Some((voters, r1)) => match dec_u64_list_exec(r1) {
            None => None,
            Some((learners, r2)) => Some((Membership { voters, learners }, r2)),
        },
    }
}

// ---------------------------------------------------------------------
// Payloads. The payload stands last in an entry record, so its decoder
// consumes the whole remaining input.
// ---------------------------------------------------------------------

pub open spec fn enc_payload(p: PayloadView) -> Seq<u8> {
    match p {
        PayloadView::Blank => seq![0u8],
        PayloadView::Membership(m) => seq![1u8] + enc_membership(m),
        PayloadView::Application(d) => seq![2u8] + d,
    }
}

pub open spec fn dec_payload(s: Seq<u8>) -> Option<PayloadView> {
    if s.len() < 1 {
        None
    } else if s[0] == 0u8 {
        if s.len() == 1 {
            Some(PayloadView::Blank)
        } else {
            None
        }
    } else if s[0] == 1u8 {
        match dec_membership(s.subrange(1, s.len() as int)) {
            Some((m, rest)) => if rest.len() == 0 {
                Some(PayloadView::Membership(m))
            } else {
                None
            },
            None => None,
        }
    } else if s[0] == 2u8 {
        Some(PayloadView::Application(s.subrange(1, s.len() as int)))
    } else {
        None
    }
}

/// The side conditions under which a payload view round-trips: its
/// membership lists, if any, must have an encodable length. Every payload
/// built from executable values satisfies them.
pub open spec fn payload_encodable(p: PayloadView) -> bool {
    match p {
        PayloadView::Blank => true,
        PayloadView::Membership(m) => m.voters.len() <= u64::MAX && m.learners.len() <= u64::MAX,
        PayloadView::Application(d) => true,
    }
}

pub proof fn lemma_payload_round_trip(p: PayloadView)
    requires
        payload_encodable(p),
    ensures
        dec_payload(enc_payload(p)) == Some(p),
{
    match p {
        PayloadView::Blank => {
        }
        PayloadView::Membership(m) => {
            let s = enc_payload(p);
            assert_seqs_equal!(s.subrange(1, s.len() as int) == enc_membership(m) + Seq::<u8>::empty());
            lemma_membership_round_trip(m, Seq::<u8>::empty());
        }
        PayloadView::Application(d) => {
            let s = enc_payload(p);
            assert_seqs_equal!(s.subrange(1, s.len() as int) == d);
        }
    }
}

fn enc_payload_into(out: &mut Vec<u8>, p: &Payload)
    ensures
        final(out)@ == old(out)@ + enc_payload(p@),
{
    match p {
        Payload::Blank => {
            out.push(0u8);
            proof { assert_seqs_equal!(out@ == old(out)@ + enc_payload(p@)); }
        }
        Payload::Membership(m) => {
            out.push(1u8);
            enc_membership_into(out, m);
            proof { assert_seqs_equal!(out@ == old(out)@ + enc_payload(p@)); }
        }
        Payload::Application(d) => {
            out.push(2u8);
            let mut copy = slice_to_vec(d.as_slice());
            out.append(&mut copy);
            proof { assert_seqs_equal!(out@ == old(out)@ + enc_payload(p@)); }
        }
    }
}

fn dec_payload_exec(b: &[u8]) -> (r: Option<Payload>)
    ensures
        match r {
            Some(p) => dec_payload(b@) == Some(p@),
            None => dec_payload(b@) is None,
        },
{
    if b.len() < 1 {
        return None;
    }
    let tag = *vstd::slice::slice_index_get(b, 0);
    let rest = slice_subrange(b, 1, b.len());
    if tag == 0u8 {
        if b.len() == 1 {
            Some(Payload::Blank)
        } else {
            None
        }
    } else if tag == 1u8 {
        match dec_membership_exec(rest) {
            Some((m, r2)) => if r2.len() == 0 {
                Some(Payload::Membership(m))
            } else {
                None
            },
            None => None,
        }
    } else if tag == 2u8 {
        Some(Payload::Application(slice_to_vec(rest)))
    } else {
        None
    }
}

// ---------------------------------------------------------------------
// Log entries: the identifier, then the payload.
// ---------------------------------------------------------------------

pub open spec fn enc_entry(e: EntryView) -> Seq<u8> {
    enc_log_id(e.log_id) + enc_payload(e.payload)
}

pub open spec fn dec_entry(s: Seq<u8>) -> Option<EntryView> {
    match dec_log_id(s) {
        None => None,
        Some((id, rest)) => match dec_payload(rest) {
            None => None,
            Some(p) => Some(EntryView { log_id: id, payload: p }),
        },
    }
}

/// Law: encoding a log entry (any payload variant) and decoding the bytes
/// yields an identical log identifier and payload.
pub proof fn lemma_entry_round_trip(e: EntryView)
    requires
        payload_encodable(e.payload),
    ensures
        dec_entry(enc_entry(e)) == Some(e),
{
    assert_seqs_equal!(enc_entry(e) == enc_log_id(e.log_id) + enc_payload(e.payload));
    lemma_log_id_round_trip(e.log_id, enc_payload(e.payload));
    lemma_payload_round_trip(e.payload);
}

/// Encodes a log entry for storage.
pub fn encode_entry(e: &LogEntry) -> (r: Vec<u8>)
    ensures
        r@ == enc_entry(e@),
{
    let mut out: Vec<u8> = Vec::new();
    enc_log_id_into(&mut out, &e.log_id);
    enc_payload_into(&mut out, &e.payload);
    proof { assert_seqs_equal!(out@ == enc_entry(e@)); }
    out
}

/// Decodes a stored log entry; rejects malformed bytes.
pub fn decode_entry(b: &[u8]) -> (r: Option<LogEntry>)
    ensures
        match r {
            Some(e) => dec_entry(b@) == Some(e@),
            None => dec_entry(b@) is None,
        },
{
    match dec_log_id_exec(b) {
        None => None,
        Some((id, rest)) => match dec_payload_exec(rest) {
            None => None,
            Some(p) => Some(LogEntry { log_id: id, payload: p }),
        },
    }
}

// ---------------------------------------------------------------------
// Snapshots: the subsumed log identifier, the membership, then the
// opaque state-machine bytes.
// ---------------------------------------------------------------------

pub open spec fn enc_snapshot(s: SnapshotView) -> Seq<u8> {
    enc_log_id(s.log_id) + enc_membership(s.membership) + s.data
}

pub open spec fn dec_snapshot(s: Seq<u8>) -> Option<SnapshotView> {
    match dec_log_id(s) {
        None => None,
        Some((id, r1)) => match dec_membership(r1) {
            None => None,
            Some((m, r2)) => Some(SnapshotView { log_id: id, membership: m, data: r2 }),
        },
    }
}

pub open spec fn snapshot_encodable(s: SnapshotView) -> bool {
    s.membership.voters.len() <= u64::MAX && s.membership.learners.len() <= u64::MAX
}

/// Law: a snapshot record round-trips exactly.
pub proof fn lemma_snapshot_round_trip(s: SnapshotView)
    requires
        snapshot_encodable(s),
    ensures
        dec_snapshot(enc_snapshot(s)) == Some(s),
{
    assert_seqs_equal!(enc_snapshot(s) ==
        enc_log_id(s.log_id) + (enc_membership(s.membership) + s.data));
    lemma_log_id_round_trip(s.log_id, enc_membership(s.membership) + s.data);
    lemma_membership_round_trip(s.membership, s.data);
}

/// Encodes a snapshot record.
pub fn encode_snapshot(s: &Snapshot) -> (r: Vec<u8>)
    ensures
        r@ == enc_snapshot(s@),
{
    let mut out: Vec<u8> = Vec::new();
    enc_log_id_into(&mut out, &s.log_id);
    enc_membership_into(&mut out, &s.membership);
    let mut copy = slice_to_vec(s.data.as_slice());
    out.append(&mut copy);
    proof { assert_seqs_equal!(out@ == enc_snapshot(s@)); }
    out
}

/// Decodes a snapshot record; rejects malformed bytes.
pub fn decode_snapshot(b: &[u8]) -> (r: Option<Snapshot>)
    ensures
        match r {
            Some(s) => dec_snapshot(b@) == Some(s@),
            None => dec_snapshot(b@) is None,
        },
{
    match dec_log_id_exec(b) {
        None => None,
        Some((id, r1)) => match dec_membership_exec(r1) {
            None => None,
            Some((m, r2)) => Some(Snapshot {
                log_id: id,
                membership: m,
                data: slice_to_vec(r2),
            }),
        },
    }
}


// ---------------------------------------------------------------------
// A bare log identifier stored as a record of its own (the commit marker).
// ---------------------------------------------------------------------

pub open spec fn enc_log_id_record(id: LogId) -> Seq<u8> {
    enc_log_id(id)
}

pub open spec fn dec_log_id_record(s: Seq<u8>) -> Option<LogId> {
    match dec_log_id(s) {
        None => None,
        Some((id, rest)) => if rest.len() == 0 {
            Some(id)
        } else {
            None
        },
    }
}

/// Law: a bare log-identifier record round-trips exactly.
pub proof fn lemma_log_id_record_round_trip(id: LogId)
    ensures
        dec_log_id_record(enc_log_id_record(id)) == Some(id),
{
    assert_seqs_equal!(enc_log_id_record(id) == enc_log_id(id) + Seq::<u8>::empty());
    lemma_log_id_round_trip(id, Seq::<u8>::empty());
}

/// Encodes a bare log-identifier record.
pub fn encode_log_id_record(id: &LogId) -> (r: Vec<u8>)
    ensures
        r@ == enc_log_id_record(*id),
{
    let mut out: Vec<u8> = Vec::new();
    enc_log_id_into(&mut out, id);
    proof { assert_seqs_equal!(out@ == enc_log_id_record(*id)); }
    out
}

/// Decodes a bare log-identifier record; rejects malformed or trailing bytes.
pub fn decode_log_id_record(b: &[u8]) -> (r: Option<LogId>)
    ensures
        r == dec_log_id_record(b@),
{
    match dec_log_id_exec(b) {
        None => None,
        Some((id, rest)) => if rest.len() == 0 {
            Some(id)
        } else {
            None
        },
    }
}

} // verus!
