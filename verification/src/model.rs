//! What a log means: its sessions, read off its frames.
//!
//! The frames of a log are taken one by one. A start marker opens a session,
//! records fill the open session, a stop marker closes it. A start marker
//! that finds a session still open closes that one first: its writer went
//! away without a stop marker. Any other frame out of place makes the log
//! meaningless, and is damage.

use vstd::prelude::*;
use crate::codec::{lemma_encoding_len, DecodeError, Frame, Record};
use crate::scan::{
    encode_all, lemma_scan_frame, lemma_scan_push, lemma_scan_whole_is_encoding, records_of, scan,
};

verus! {

/// One session as the log tells it.
pub struct SessionModel {
    /// The session's identifier.
    pub id: u64,
    /// Offset of the first byte of the session's start marker.
    pub start: nat,
    /// Offset behind the last byte of the session's last frame.
    pub end: nat,
    /// The session's records, in the order in which they were appended.
    pub records: Seq<Record>,
}

/// All that a log tells.
pub struct LogModel {
    /// The sessions, oldest first.
    pub sessions: Seq<SessionModel>,
    /// Whether the newest session is open.
    pub open: bool,
    /// The record written last, of whatever session.
    pub last: Option<Record>,
}

impl LogModel {
    /// What a log without frames tells.
    pub open spec fn empty() -> LogModel {
        LogModel { sessions: Seq::empty(), open: false, last: None }
    }

    /// Offset behind the last frame.
    pub open spec fn end(self) -> nat {
        if self.sessions.len() == 0 {
            0
        } else {
            self.sessions.last().end
        }
    }

    /// The identifier of the open session, if one is open.
    pub open spec fn open_id(self) -> Option<u64> {
        if self.open {
            Some(self.sessions.last().id)
        } else {
            None
        }
    }

    /// Whether a session with this identifier may be started: the
    /// identifier is greater than all that were used.
    pub open spec fn admits(self, id: u64) -> bool {
        self.sessions.len() == 0 || self.sessions.last().id < id
    }

    /// The identifier that a session started at time `now` gets: `now`
    /// itself, or, where `now` is not greater than the newest session's
    /// identifier, that identifier plus one. `None` when no greater
    /// identifier is left.
    pub open spec fn next_id(self, now: u64) -> Option<u64> {
        if self.sessions.len() == 0 {
            Some(now)
        } else if self.sessions.last().id == u64::MAX {
            None
        } else if now > self.sessions.last().id {
            Some(now)
        } else {
            Some((self.sessions.last().id + 1) as u64)
        }
    }

    /// The same sessions with none open.
    pub open spec fn sealed(self) -> LogModel {
        LogModel { open: false, ..self }
    }

    /// After a start marker for `id`.
    pub open spec fn started(self, id: u64) -> LogModel {
        LogModel {
            sessions: self.sessions.push(
                SessionModel {
                    id,
                    start: self.end(),
                    end: self.end() + Frame::Start(id).encoded_len(),
                    records: Seq::empty(),
                },
            ),
            open: true,
            last: self.last,
        }
    }

    /// After record `r` in the open session.
    pub open spec fn appended(self, r: Record) -> LogModel {
        let s = self.sessions.last();
        LogModel {
            sessions: self.sessions.update(
                self.sessions.len() - 1,
                SessionModel {
                    end: s.end + Frame::Record(r).encoded_len(),
                    records: s.records.push(r),
                    ..s
                },
            ),
            open: true,
            last: Some(r),
        }
    }

    /// After the stop marker of the open session.
    pub open spec fn stopped(self) -> LogModel {
        let s = self.sessions.last();
        LogModel {
            sessions: self.sessions.update(
                self.sessions.len() - 1,
                SessionModel { end: s.end + Frame::Stop(s.id).encoded_len(), ..s },
            ),
            open: false,
            last: self.last,
        }
    }

    /// What the log tells after one more frame, or `None` where the frame
    /// is out of place: a start marker whose identifier is not greater than
    /// all before it, a record with no session open, a stop marker with no
    /// session open or for another session than the open one.
    pub open spec fn step(self, f: Frame) -> Option<LogModel> {
        match f {
            Frame::Start(id) => if self.admits(id) {
                Some(self.started(id))
            } else {
                None
            },
            Frame::Record(r) => if self.open {
                Some(self.appended(r))
            } else {
                None
            },
            Frame::Stop(id) => if self.open && self.sessions.last().id == id {
                Some(self.stopped())
            } else {
                None
            },
        }
    }

    /// What holds of every log's meaning: identifiers grow from session to
    /// session, the sessions lie one behind the other from offset 0 on, each
    /// takes more bytes than it has records, and only an existing session
    /// can be open.
    pub open spec fn wf(self) -> bool {
        &&& self.open ==> self.sessions.len() > 0
        &&& self.sessions.len() > 0 ==> self.sessions[0].start == 0
        &&& forall|i: int|
            0 <= i < self.sessions.len() ==> (#[trigger] self.sessions[i]).start
                + self.sessions[i].records.len() < self.sessions[i].end
        &&& forall|i: int|
            0 <= i < self.sessions.len() - 1 ==> (#[trigger] self.sessions[i]).end
                == self.sessions[i + 1].start && self.sessions[i].id < self.sessions[i + 1].id
    }

    /// Whether a session has this identifier.
    pub open spec fn has(self, id: u64) -> bool {
        exists|i: int| 0 <= i < self.sessions.len() && (#[trigger] self.sessions[i]).id == id
    }

    /// The identifiers of the sessions, oldest first.
    pub open spec fn ids(self) -> Seq<u64> {
        Seq::new(self.sessions.len(), |i: int| self.sessions[i].id)
    }
}

/// What the frames tell, taken in order from an empty log; `None` where one
/// of them is out of place.
pub open spec fn replay(frames: Seq<Frame>) -> Option<LogModel>
    decreases frames.len(),
{
    if frames.len() == 0 {
        Some(LogModel::empty())
    } else {
        match replay(frames.drop_last()) {
            Some(m) => m.step(frames.last()),
            None => None,
        }
    }
}

/// What the bytes of a log tell. Bytes that end inside a frame are an
/// unfinished write: the frames before them count and the rest is left out.
/// Damaged bytes, and a frame out of place, are `Corrupt`.
pub open spec fn recover(log: Seq<u8>) -> Result<LogModel, DecodeError> {
    let s = scan(log);
    if s.corrupt {
        Err(DecodeError::Corrupt)
    } else {
        match replay(s.frames) {
            Some(m) => Ok(m),
            None => Err(DecodeError::Corrupt),
        }
    }
}

/// Whether the bytes of session `s` lie in `log` where `s` says, and hold
/// the records that `s` says.
pub open spec fn lies_in(s: SessionModel, log: Seq<u8>) -> bool {
    let bytes = log.subrange(s.start as int, s.end as int);
    &&& s.start <= s.end <= log.len()
    &&& scan(bytes).whole(bytes.len())
    &&& records_of(scan(bytes).frames) == s.records
}

/// Whether every record of `rs` is at least as late as the one before it.
pub open spec fn in_time_order(rs: Seq<Record>) -> bool {
    forall|i: int, j: int| 0 <= i <= j < rs.len() ==> rs[i].timestamp <= rs[j].timestamp
}

/// One more frame keeps a meaning well-formed.
pub proof fn lemma_step_wf(m: LogModel, f: Frame)
    requires
        m.wf(),
        m.step(f) is Some,
    ensures
        m.step(f)->0.wf(),
        m.step(f)->0.end() == m.end() + f.encoded_len(),
{
}

/// Taking one more frame is one step from what the frames before it tell.
pub proof fn lemma_replay_push(frames: Seq<Frame>, f: Frame)
    ensures
        replay(frames.push(f)) == match replay(frames) {
            Some(m) => m.step(f),
            None => None,
        },
{
    assert(frames.push(f).drop_last() =~= frames);
}

/// Once a frame is out of place, no frame behind it mends the log.
pub proof fn lemma_replay_stays_failed(frames: Seq<Frame>, more: Seq<Frame>)
    requires
        replay(frames) is None,
    ensures
        replay(frames + more) is None,
    decreases more.len(),
{
    if more.len() == 0 {
        assert(frames + more =~= frames);
    } else {
        assert((frames + more).drop_last() =~= frames + more.drop_last());
        lemma_replay_stays_failed(frames, more.drop_last());
    }
}

/// What frames tell is well-formed and ends where their bytes end.
pub proof fn lemma_replay_wf(frames: Seq<Frame>)
    requires
        replay(frames) is Some,
    ensures
        replay(frames)->0.wf(),
        replay(frames)->0.end() == encode_all(frames).len(),
    decreases frames.len(),
{
    if frames.len() > 0 {
        lemma_replay_wf(frames.drop_last());
        lemma_step_wf(replay(frames.drop_last())->0, frames.last());
        lemma_encoding_len(frames.last());
    }
}

/// In a well-formed meaning an older session has the smaller identifier.
pub proof fn lemma_ids_increase(m: LogModel, i: int, j: int)
    requires
        m.wf(),
        0 <= i < j < m.sessions.len(),
    ensures
        m.sessions[i].id < m.sessions[j].id,
    decreases j - i,
{
    if i + 1 < j {
        lemma_ids_increase(m, i, j - 1);
        assert(m.sessions[j - 1].id < m.sessions[j].id);
    }
}

/// A frame written behind a session's bytes adds to the session's records
/// if it is a record, and leaves them as they are if it is a marker.
proof fn lemma_session_grows(s: SessionModel, old_log: Seq<u8>, f: Frame)
    requires
        lies_in(s, old_log),
        s.end == old_log.len(),
    ensures
        lies_in(
            SessionModel {
                end: s.end + f.encoded_len(),
                records: match f {
                    Frame::Record(r) => s.records.push(r),
                    _ => s.records,
                },
                ..s
            },
            old_log + f.encoding(),
        ),
{
    let log = old_log + f.encoding();
    let before = old_log.subrange(s.start as int, s.end as int);
    let after = log.subrange(s.start as int, (s.end + f.encoded_len()) as int);
    lemma_encoding_len(f);
    assert(after =~= before + f.encoding());
    lemma_scan_push(before, f);
    assert(scan(before).frames.push(f).drop_last() =~= scan(before).frames);
}

/// Every session that frames tell of lies in the frames' bytes where it
/// says, and holds there the records that it says.
pub proof fn lemma_sessions_lie_in_log(frames: Seq<Frame>)
    requires
        replay(frames) is Some,
    ensures
        forall|i: int|
            0 <= i < replay(frames)->0.sessions.len() ==> lies_in(
                #[trigger] replay(frames)->0.sessions[i],
                encode_all(frames),
            ),
    decreases frames.len(),
{
    if frames.len() > 0 {
        let before = frames.drop_last();
        let f = frames.last();
        let m0 = replay(before)->0;
        let m = replay(frames)->0;
        let old_log = encode_all(before);
        let log = encode_all(frames);
        lemma_replay_wf(before);
        lemma_sessions_lie_in_log(before);
        lemma_encoding_len(f);
        assert forall|i: int| 0 <= i < m.sessions.len() implies lies_in(
            #[trigger] m.sessions[i],
            log,
        ) by {
            let s = m.sessions[i];
            if i < m0.sessions.len() && s == m0.sessions[i] {
                assert(lies_in(m0.sessions[i], old_log));
                assert(log.subrange(s.start as int, s.end as int) =~= old_log.subrange(
                    s.start as int,
                    s.end as int,
                ));
            } else {
                match f {
                    Frame::Start(id) => {
                        assert(i == m0.sessions.len());
                        assert(log.subrange(s.start as int, s.end as int) =~= f.encoding());
                        lemma_scan_frame(f);
                        assert(seq![f].drop_last() =~= Seq::<Frame>::empty());
                        assert(records_of(Seq::<Frame>::empty()) =~= Seq::<Record>::empty());
                        assert(seq![f].last() == f);
                        assert(records_of(seq![f]) =~= Seq::<Record>::empty());
                    },
                    _ => {
                        assert(i == m0.sessions.len() - 1);
                        assert(lies_in(m0.sessions[i], old_log));
                        lemma_session_grows(m0.sessions[i], old_log, f);
                    },
                }
            }
        }
    }
}

/// In bytes that scan whole and tell of sessions, every session lies
/// where it says and holds the records that it says.
pub proof fn lemma_recovered_sessions_lie_in_log(log: Seq<u8>)
    requires
        scan(log).whole(log.len()),
        replay(scan(log).frames) is Some,
    ensures
        replay(scan(log).frames)->0.wf(),
        replay(scan(log).frames)->0.end() == log.len(),
        forall|i: int|
            0 <= i < replay(scan(log).frames)->0.sessions.len() ==> lies_in(
                #[trigger] replay(scan(log).frames)->0.sessions[i],
                log,
            ),
{
    lemma_scan_whole_is_encoding(log);
    lemma_replay_wf(scan(log).frames);
    lemma_sessions_lie_in_log(scan(log).frames);
}

} // verus!
