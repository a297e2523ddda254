//! What the log guarantees, stated over what its bytes tell.

use vstd::prelude::*;
use crate::codec::{lemma_encoding_len, parse_record, DecodeError, Frame, Record, HEADER_LEN};
use crate::framing::{lemma_cut_frame_truncated, lemma_damaged_frame_corrupt, lemma_frame_roundtrip};
use crate::model::{in_time_order, lemma_ids_increase, recover, LogModel};
use crate::scan::{encode_all, lemma_scan_concat, lemma_scan_empty, lemma_scan_push, scan, Scan};

verus! {

/// Round trip: a record that was encoded decodes to itself.
pub proof fn record_roundtrip(r: Record)
    ensures
        parse_record(Frame::Record(r).encoding()) == Ok::<Record, DecodeError>(r),
{
    lemma_frame_roundtrip(Frame::Record(r), Seq::empty());
    assert(Frame::Record(r).encoding() + Seq::<u8>::empty() =~= Frame::Record(r).encoding());
}

/// Round trip of a whole log: frames written one behind the other are read
/// back as the same frames, with no byte left over and no damage found.
pub proof fn log_roundtrip(frames: Seq<Frame>)
    ensures
        scan(encode_all(frames)) == (Scan {
            frames,
            valid_len: encode_all(frames).len(),
            corrupt: false,
        }),
    decreases frames.len(),
{
    if frames.len() == 0 {
        lemma_scan_empty();
        assert(encode_all(frames) =~= Seq::<u8>::empty());
        assert(frames =~= Seq::<Frame>::empty());
    } else {
        let before = frames.drop_last();
        log_roundtrip(before);
        lemma_scan_push(encode_all(before), frames.last());
        lemma_encoding_len(frames.last());
        assert(before.push(frames.last()) =~= frames);
    }
}

/// Append order: a record appended to the open session becomes the last
/// of that session's records, and the records before it stay as they are.
/// Where the session's records were in time order and the new record is no
/// earlier than the last of them, they are in time order still.
pub proof fn append_keeps_order(m: LogModel, r: Record)
    requires
        m.wf(),
        m.open,
    ensures
        m.step(Frame::Record(r)) == Some(m.appended(r)),
        m.appended(r).sessions.last().records == m.sessions.last().records.push(r),
        in_time_order(m.sessions.last().records) && (m.sessions.last().records.len() > 0
            ==> m.sessions.last().records.last().timestamp <= r.timestamp) ==> in_time_order(
            m.appended(r).sessions.last().records,
        ),
{
    let before = m.sessions.last().records;
    let after = before.push(r);
    if in_time_order(before) && (before.len() > 0 ==> before.last().timestamp <= r.timestamp) {
        assert forall|i: int, j: int| 0 <= i <= j < after.len() implies after[i].timestamp
            <= after[j].timestamp by {
            if j == before.len() && i < before.len() {
                assert(before[i].timestamp <= before[before.len() - 1].timestamp);
            }
        }
    }
}

/// Whether the records of every session are in time order.
pub open spec fn sessions_in_time_order(m: LogModel) -> bool {
    forall|i: int| 0 <= i < m.sessions.len() ==> in_time_order(#[trigger] m.sessions[i].records)
}

/// Time order: in a log whose sessions are in time order, they stay so
/// under every frame but a record that is earlier than the record before
/// it in its session. So the sessions of a log to which no such record was
/// ever appended are all in time order.
pub proof fn time_order_is_kept(m: LogModel, f: Frame)
    requires
        m.wf(),
        sessions_in_time_order(m),
        m.step(f) is Some,
        f matches Frame::Record(r) ==> m.sessions.last().records.len() > 0
            ==> m.sessions.last().records.last().timestamp <= r.timestamp,
    ensures
        sessions_in_time_order(LogModel::empty()),
        sessions_in_time_order(m.step(f)->0),
        sessions_in_time_order(m.sealed()),
{
    let after = m.step(f)->0;
    assert forall|i: int| 0 <= i < after.sessions.len() implies in_time_order(
        #[trigger] after.sessions[i].records,
    ) by {
        if i < m.sessions.len() {
            assert(in_time_order(m.sessions[i].records));
            if let Frame::Record(r) = f {
                if i == m.sessions.len() - 1 {
                    append_keeps_order(m, r);
                }
            }
        }
    }
}

/// No frame changes a session that is closed, or one that is older than
/// the newest: what was written stays as it was written.
pub proof fn closed_sessions_stay(m: LogModel, f: Frame, i: int)
    requires
        m.wf(),
        m.step(f) is Some,
        0 <= i < m.sessions.len(),
        i < m.sessions.len() - 1 || !m.open,
    ensures
        i < m.step(f)->0.sessions.len(),
        m.step(f)->0.sessions[i] == m.sessions[i],
{
}

/// Whether `later` still has every session of `earlier`, in its place and
/// under its identifier.
pub open spec fn keeps_sessions(later: LogModel, earlier: LogModel) -> bool {
    &&& earlier.sessions.len() <= later.sessions.len()
    &&& forall|i: int|
        0 <= i < earlier.sessions.len() ==> (#[trigger] later.sessions[i]).id
            == earlier.sessions[i].id
}

/// Sessions are never deleted and never renamed: not by a frame, and not
/// by closing the newest session when the log is opened again.
pub proof fn sessions_are_kept(m: LogModel, f: Frame)
    requires
        m.wf(),
    ensures
        m.step(f) is Some ==> keeps_sessions(m.step(f)->0, m),
        keeps_sessions(m.sealed(), m),
        keeps_sessions(m, m),
{
}

/// Keeping sessions carries on over any number of changes.
pub proof fn sessions_are_kept_on(first: LogModel, second: LogModel, third: LogModel)
    requires
        keeps_sessions(second, first),
        keeps_sessions(third, second),
    ensures
        keeps_sessions(third, first),
{
    assert forall|i: int| 0 <= i < first.sessions.len() implies (#[trigger] third.sessions[i]).id
        == first.sessions[i].id by {
        assert(second.sessions[i].id == first.sessions[i].id);
    }
}

/// Growing identifiers: among the sessions of a log an older one has the
/// smaller identifier, and the identifier that a new session gets is
/// greater than that of every session there is.
pub proof fn session_ids_increase(m: LogModel, now: u64, i: int, j: int)
    requires
        m.wf(),
    ensures
        0 <= i < j < m.sessions.len() ==> m.sessions[i].id < m.sessions[j].id,
        m.next_id(now) is Some && 0 <= i < m.sessions.len() ==> m.sessions[i].id < m.next_id(
            now,
        )->0,
        m.next_id(now) is Some ==> m.step(Frame::Start(m.next_id(now)->0)) == Some(
            m.started(m.next_id(now)->0),
        ),
{
    if 0 <= i < j < m.sessions.len() {
        lemma_ids_increase(m, i, j);
    }
    if 0 <= i < m.sessions.len() - 1 {
        lemma_ids_increase(m, i, m.sessions.len() - 1);
    }
}

/// Successive starts: where a session was started with identifier `first`,
/// whatever was done to the log since, the next session gets a greater
/// identifier.
pub proof fn successive_ids_increase(m: LogModel, first: u64, later: LogModel, now: u64)
    requires
        m.wf(),
        m.admits(first),
        later.wf(),
        keeps_sessions(later, m.started(first)),
        later.next_id(now) is Some,
    ensures
        first < later.next_id(now)->0,
{
    let at = m.sessions.len() as int;
    assert(m.started(first).sessions[at].id == first);
    assert(later.sessions[at].id == first);
    session_ids_increase(later, now, at, at);
}

/// One session at a time: while a session is open, a start marker closes
/// it before it opens the next, so never are two sessions open; and a
/// record or a stop marker with no session open is out of place.
pub proof fn one_session_open(m: LogModel, f: Frame)
    requires
        m.wf(),
    ensures
        !m.open ==> m.step(f) is Some ==> f is Start,
        m.step(f) is Some ==> (m.step(f)->0.open <==> !(f is Stop)),
{
}

/// Crash recovery: a log that ends in a frame cut short, at any byte, tells
/// what it told before that frame was begun, and the cut frame's bytes are
/// not counted as valid.
pub proof fn cut_tail_is_ignored(log: Seq<u8>, f: Frame, k: int)
    requires
        scan(log).whole(log.len()),
        0 <= k < f.encoded_len(),
    ensures
        scan(log + f.encoding().take(k)) == scan(log),
        recover(log + f.encoding().take(k)) == recover(log),
{
    let cut = f.encoding().take(k);
    lemma_cut_frame_truncated(f, k);
    lemma_scan_concat(log, cut);
    assert(scan(log).frames + Seq::<Frame>::empty() =~= scan(log).frames);
}

/// The byte `b` with bit number `bit` flipped.
pub open spec fn flip(b: u8, bit: u8) -> u8 {
    b ^ (1u8 << bit)
}

/// Corruption detection: where behind sound frames a frame has one bit
/// flipped in its payload or in its checksum, the log is `Corrupt`,
/// whatever follows that frame.
pub proof fn bit_flip_is_detected(before: Seq<u8>, f: Frame, i: int, bit: u8, after: Seq<u8>)
    requires
        scan(before).whole(before.len()),
        HEADER_LEN <= i < f.encoded_len(),
        bit < 8,
    ensures
        scan(before + f.encoding().update(i, flip(f.encoding()[i], bit)) + after).corrupt,
        recover(before + f.encoding().update(i, flip(f.encoding()[i], bit)) + after) == Err::<
            LogModel,
            DecodeError,
        >(DecodeError::Corrupt),
{
    let was = f.encoding()[i];
    let damaged = f.encoding().update(i, flip(was, bit));
    assert(flip(was, bit) != was) by (bit_vector)
        requires
            bit < 8,
    ;
    lemma_damaged_frame_corrupt(f, i, flip(was, bit), after);
    lemma_scan_concat(before, damaged + after);
    assert(before + damaged + after =~= before + (damaged + after));
}

} // verus!
