//! The session index: where each session lies in the log.
//!
//! The index is a cache of what the log tells. It is never stored; it is
//! rebuilt from the log by one pass over its frames and then kept in step
//! with every frame that is written.

use vstd::prelude::*;
use crate::codec::{decode_frame, frame_len, DecodeError, Frame, Record};
use crate::error::Error;
use crate::model::{
    lemma_replay_push, lemma_replay_stays_failed, lemma_step_wf, recover, replay, LogModel,
    SessionModel,
};
use crate::scan::{
    lemma_scan_begins, lemma_scan_ends, lemma_scan_found_so_far, lemma_scan_goes_on, scan,
    scan_resumes,
};

verus! {

/// What the index holds of one session.
#[derive(Clone, Copy, Debug, PartialEq, Eq)]
pub struct SessionEntry {
    /// The session's identifier.
    pub id: u64,
    /// Offset of the first byte of the session's start marker.
    pub start: usize,
    /// Offset behind the last byte of the session's last frame.
    pub end: usize,
    /// The number of records in the session.
    pub records: usize,
}

/// The index as a value.
pub struct IndexView {
    /// The entries, oldest session first.
    pub entries: Seq<SessionEntry>,
    /// Whether the newest session is open.
    pub open: bool,
    /// The record written last, of whatever session.
    pub last: Option<Record>,
}

/// Whether entry `e` says of a session what `s` says.
pub open spec fn describes(e: SessionEntry, s: SessionModel) -> bool {
    &&& e.id == s.id
    &&& e.start == s.start
    &&& e.end == s.end
    &&& e.records == s.records.len()
}

impl IndexView {
    /// Identifiers grow from entry to entry, and only an existing session
    /// can be open.
    pub open spec fn wf(self) -> bool {
        &&& self.open ==> self.entries.len() > 0
        &&& forall|i: int, j: int|
            0 <= i < j < self.entries.len() ==> self.entries[i].id < self.entries[j].id
    }

    /// Whether the index says what `m` says, session by session.
    pub open spec fn mirrors(self, m: LogModel) -> bool {
        &&& self.entries.len() == m.sessions.len()
        &&& forall|i: int|
            0 <= i < self.entries.len() ==> describes(#[trigger] self.entries[i], m.sessions[i])
        &&& self.open == m.open
        &&& self.last == m.last
    }

    /// Offset behind the last frame that the index knows of.
    pub open spec fn valid_len(self) -> nat {
        if self.entries.len() == 0 {
            0
        } else {
            self.entries.last().end as nat
        }
    }

    /// The identifiers of the sessions, oldest first.
    pub open spec fn ids(self) -> Seq<u64> {
        Seq::new(self.entries.len(), |i: int| self.entries[i].id)
    }

    /// The identifier of the open session, if one is open.
    pub open spec fn open_id(self) -> Option<u64> {
        if self.open {
            Some(self.entries.last().id)
        } else {
            None
        }
    }

    /// Whether a session has this identifier.
    pub open spec fn has(self, id: u64) -> bool {
        exists|i: int| 0 <= i < self.entries.len() && (#[trigger] self.entries[i]).id == id
    }
}

/// The session index.
#[derive(Debug)]
pub struct SessionIndex {
    entries: Vec<SessionEntry>,
    open: bool,
    last: Option<Record>,
}

impl View for SessionIndex {
    type V = IndexView;

    closed spec fn view(&self) -> IndexView {
        IndexView { entries: self.entries@, open: self.open, last: self.last }
    }
}

impl SessionIndex {
    /// The index of a log without frames.
    pub fn new() -> (ix: SessionIndex)
        ensures
            ix@.wf(),
            ix@.mirrors(LogModel::empty()),
            ix@.entries.len() == 0,
    {
        SessionIndex { entries: Vec::new(), open: false, last: None }
    }

    /// Where the entry of session `id` stands, if there is one. A binary
    /// search: the entries are ordered by identifier.
    fn position(&self, id: u64) -> (at: Option<usize>)
        requires
            self@.wf(),
        ensures
            match at {
                Some(i) => i < self@.entries.len() && self@.entries[i as int].id == id,
                None => !self@.has(id),
            },
    {
        let mut lo: usize = 0;
        let mut hi: usize = self.entries.len();
        while lo < hi
            invariant
                self@.wf(),
                lo <= hi <= self@.entries.len(),
                forall|i: int| 0 <= i < lo ==> (#[trigger] self@.entries[i]).id < id,
                forall|i: int|
                    hi <= i < self@.entries.len() ==> (#[trigger] self@.entries[i]).id > id,
            decreases hi - lo,
        {
            let mid = lo + (hi - lo) / 2;
            let found = self.entries[mid].id;
            if found == id {
                return Some(mid);
            } else if found < id {
                lo = mid + 1;
            } else {
                hi = mid;
            }
        }
        None
    }

    /// The entry of session `id`.
    pub fn entry_for(&self, id: u64) -> (r: Result<SessionEntry, Error>)
        requires
            self@.wf(),
        ensures
            match r {
                Ok(e) => e.id == id && self@.entries.contains(e),
                Err(e) => e == Error::NotFound && !self@.has(id),
            },
    {
        match self.position(id) {
            Some(i) => Ok(self.entries[i]),
            None => Err(Error::NotFound),
        }
    }

    /// The byte range of session `id`: the offset of its start marker and
    /// the offset behind its last frame.
    pub fn range_for(&self, id: u64) -> (r: Result<(usize, usize), Error>)
        requires
            self@.wf(),
        ensures
            match r {
                Ok((start, end)) => exists|i: int|
                    0 <= i < self@.entries.len() && (#[trigger] self@.entries[i]).id == id
                        && self@.entries[i].start == start && self@.entries[i].end == end,
                Err(e) => e == Error::NotFound && !self@.has(id),
            },
    {
        match self.position(id) {
            Some(i) => Ok((self.entries[i].start, self.entries[i].end)),
            None => Err(Error::NotFound),
        }
    }

    /// Whether session `id` is closed. Only the newest session can be open.
    pub fn is_closed(&self, id: u64) -> (r: Result<bool, Error>)
        requires
            self@.wf(),
        ensures
            match r {
                Ok(closed) => self@.has(id) && closed == (self@.open_id() != Some(id)),
                Err(e) => e == Error::NotFound && !self@.has(id),
            },
    {
        match self.position(id) {
            Some(i) => Ok(!(self.open && i == self.entries.len() - 1)),
            None => Err(Error::NotFound),
        }
    }

    /// The identifiers of all sessions, oldest first.
    pub fn session_ids(&self) -> (ids: Vec<u64>)
        ensures
            ids@ == self@.ids(),
    {
        let mut ids: Vec<u64> = Vec::new();
        let mut i: usize = 0;
        while i < self.entries.len()
            invariant
                i <= self@.entries.len(),
                ids@ == self@.ids().take(i as int),
            decreases self@.entries.len() - i,
        {
            ids.push(self.entries[i].id);
            proof {
                assert(ids@ =~= self@.ids().take(i + 1));
            }
            i = i + 1;
        }
        proof {
            assert(ids@ =~= self@.ids());
        }
        ids
    }

    /// The identifier of the open session, if one is open.
    pub fn open_session(&self) -> (id: Option<u64>)
        requires
            self@.wf(),
        ensures
            id == self@.open_id(),
    {
        if self.open {
            Some(self.entries[self.entries.len() - 1].id)
        } else {
            None
        }
    }

    /// The identifier of the newest session, if there is a session.
    pub fn newest_id(&self) -> (id: Option<u64>)
        ensures
            id == if self@.entries.len() == 0 {
                None
            } else {
                Some(self@.entries.last().id)
            },
    {
        if self.entries.len() == 0 {
            None
        } else {
            Some(self.entries[self.entries.len() - 1].id)
        }
    }

    /// The record written last, of whatever session.
    pub fn last_record(&self) -> (r: Option<Record>)
        ensures
            r == self@.last,
    {
        self.last
    }

    /// Offset behind the last frame that the index knows of: where the next
    /// frame is written.
    pub fn valid_len(&self) -> (n: usize)
        ensures
            n == self@.valid_len(),
    {
        if self.entries.len() == 0 {
            0
        } else {
            self.entries[self.entries.len() - 1].end
        }
    }

    /// Marks the newest session closed, as after a writer that went away
    /// without a stop marker.
    pub(crate) fn seal(&mut self)
        ensures
            final(self)@ == (IndexView { open: false, ..old(self)@ }),
    {
        self.open = false;
    }

    /// Takes one more frame into the index, if the frame is in place; says
    /// whether it was.
    pub(crate) fn apply(&mut self, frame: &Frame, Ghost(m): Ghost<LogModel>) -> (ok: bool)
        requires
            old(self)@.wf(),
            m.wf(),
            old(self)@.mirrors(m),
            m.end() + frame.encoded_len() <= usize::MAX,
        ensures
            ok == m.step(*frame).is_some(),
            ok ==> final(self)@.wf() && final(self)@.mirrors(m.step(*frame)->0),
            !ok ==> final(self)@ == old(self)@,
    {
        let len = frame_len(frame);
        let count = self.entries.len();
        let at = self.valid_len();
        proof {
            if count > 0 {
                assert(describes(self@.entries[count - 1], m.sessions[count - 1]));
            }
        }
        match frame {
            Frame::Start(id) => {
                if count > 0 && self.entries[count - 1].id >= *id {
                    return false;
                }
                self.entries.push(SessionEntry { id: *id, start: at, end: at + len, records: 0 });
                self.open = true;
                proof {
                    let after = m.step(*frame)->0;
                    assert forall|i: int, j: int| 0 <= i < j < self@.entries.len() implies self@.entries[i].id
                        < self@.entries[j].id by {
                        if j == count {
                            if i < count - 1 {
                                assert(old(self)@.entries[i].id < old(self)@.entries[count - 1].id);
                            }
                        } else {
                            assert(old(self)@.entries[i].id < old(self)@.entries[j].id);
                        }
                    }
                    assert forall|i: int| 0 <= i < self@.entries.len() implies describes(
                        #[trigger] self@.entries[i],
                        after.sessions[i],
                    ) by {
                        if i < count {
                            assert(describes(old(self)@.entries[i], m.sessions[i]));
                        }
                    }
                }
                true
            },
            Frame::Record(r) => {
                if !self.open {
                    return false;
                }
                let e = self.entries[count - 1];
                proof {
                    assert(m.sessions[count - 1].start + m.sessions[count - 1].records.len()
                        < m.sessions[count - 1].end);
                }
                self.entries[count - 1] = SessionEntry {
                    id: e.id,
                    start: e.start,
                    end: e.end + len,
                    records: e.records + 1,
                };
                self.last = Some(*r);
                proof {
                    let after = m.step(*frame)->0;
                    assert forall|i: int, j: int| 0 <= i < j < self@.entries.len() implies self@.entries[i].id
                        < self@.entries[j].id by {
                        assert(old(self)@.entries[i].id < old(self)@.entries[j].id);
                    }
                    assert forall|i: int| 0 <= i < self@.entries.len() implies describes(
                        #[trigger] self@.entries[i],
                        after.sessions[i],
                    ) by {
                        assert(describes(old(self)@.entries[i], m.sessions[i]));
                    }
                }
                true
            },
            Frame::Stop(id) => {
                if !self.open || self.entries[count - 1].id != *id {
                    return false;
                }
                let e = self.entries[count - 1];
                self.entries[count - 1] = SessionEntry {
                    id: e.id,
                    start: e.start,
                    end: e.end + len,
                    records: e.records,
                };
                self.open = false;
                proof {
                    let after = m.step(*frame)->0;
                    assert forall|i: int, j: int| 0 <= i < j < self@.entries.len() implies self@.entries[i].id
                        < self@.entries[j].id by {
                        assert(old(self)@.entries[i].id < old(self)@.entries[j].id);
                    }
                    assert forall|i: int| 0 <= i < self@.entries.len() implies describes(
                        #[trigger] self@.entries[i],
                        after.sessions[i],
                    ) by {
                        assert(describes(old(self)@.entries[i], m.sessions[i]));
                    }
                }
                true
            },
        }
    }

    /// Rebuilds the index from the bytes of a log, in one pass over its
    /// frames. Bytes that end inside a frame end the pass without error;
    /// damaged bytes, and a frame out of place, are `Corrupt`.
    pub fn rebuild(log: &[u8]) -> (r: Result<SessionIndex, DecodeError>)
        ensures
            match r {
                Ok(ix) => {
                    &&& recover(log@) is Ok
                    &&& ix@.wf()
                    &&& ix@.mirrors(recover(log@)->Ok_0)
                    &&& ix@.valid_len() == scan(log@).valid_len
                },
                Err(e) => e == DecodeError::Corrupt && recover(log@) is Err,
            },
    {
        let mut ix = SessionIndex::new();
        let mut pos: usize = 0;
        let ghost mut seen: Seq<Frame> = Seq::empty();
        let ghost mut m: LogModel = LogModel::empty();
        proof {
            lemma_scan_begins(log@);
        }
        loop
            invariant
                pos <= log.len(),
                replay(seen) == Some(m),
                m.wf(),
                m.end() == pos,
                ix@.wf(),
                ix@.mirrors(m),
                scan_resumes(log@, seen, pos as int),
            decreases log.len() - pos,
        {
            match decode_frame(log, pos) {
                Ok((frame, next)) => {
                    proof {
                        lemma_scan_goes_on(log@, seen, pos as int, frame, (next - pos) as nat);
                        lemma_replay_push(seen, frame);
                    }
                    let ok = ix.apply(&frame, Ghost(m));
                    if !ok {
                        proof {
                            lemma_out_of_place_is_corrupt(log@, seen.push(frame), next as int);
                        }
                        return Err(DecodeError::Corrupt);
                    }
                    proof {
                        lemma_step_wf(m, frame);
                        m = m.step(frame)->0;
                        seen = seen.push(frame);
                    }
                    pos = next;
                },
                Err(e) => {
                    proof {
                        lemma_scan_ends(log@, seen, pos as int, e);
                        if ix@.entries.len() > 0 {
                            assert(describes(ix@.entries.last(), m.sessions.last()));
                        }
                    }
                    match e {
                        DecodeError::Corrupt => {
                            return Err(DecodeError::Corrupt);
                        },
                        DecodeError::Truncated => {
                            return Ok(ix);
                        },
                    }
                },
            }
        }
    }
}

/// Bytes whose scan has found frames that no log can hold, one of them
/// being out of place, are `Corrupt`, whatever lies behind those frames.
proof fn lemma_out_of_place_is_corrupt(log: Seq<u8>, seen: Seq<Frame>, pos: int)
    requires
        0 <= pos <= log.len(),
        scan_resumes(log, seen, pos),
        replay(seen) is None,
    ensures
        recover(log) is Err,
{
    lemma_scan_found_so_far(log, seen, pos);
    lemma_replay_stays_failed(seen, scan(log.skip(pos)).frames);
}

} // verus!
