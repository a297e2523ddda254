//! The session store: the log, its index, and the operations on both.
//!
//! The store holds the bytes of the log and is the only one to add to
//! them. Every operation that changes the log adds exactly one frame behind
//! the last one; nothing that was written is changed again. The index is
//! brought up to date in the same step, so a reader of the store never
//! meets a frame that is only partly there.

use vstd::prelude::*;
use crate::codec::{encode_frame, lemma_encoding_len, DecodeError, Frame, Record};
use crate::error::Error;
use crate::index::{describes, SessionIndex};
use crate::model::{
    lemma_ids_increase, lemma_recovered_sessions_lie_in_log, lemma_replay_push, lemma_replay_wf,
    lies_in, recover, replay, LogModel,
};
use crate::scan::{
    lemma_scan_push, lemma_scan_valid_prefix, lemma_scan_whole_is_encoding, read_records, scan,
};

verus! {

/// The session store.
#[derive(Debug)]
pub struct SessionStore {
    log: Vec<u8>,
    index: SessionIndex,
}

impl View for SessionStore {
    type V = LogModel;

    /// What the store's log tells, with the newest session open only while
    /// this store keeps it open.
    closed spec fn view(&self) -> LogModel {
        LogModel { open: self.index@.open, ..replay(scan(self.log@).frames)->0 }
    }
}

impl SessionStore {
    /// The bytes of the log.
    pub closed spec fn log_bytes(&self) -> Seq<u8> {
        self.log@
    }

    /// The log is frame after frame with none out of place, and the index
    /// says what the log tells.
    pub closed spec fn wf(&self) -> bool {
        &&& scan(self.log@).whole(self.log@.len())
        &&& replay(scan(self.log@).frames) is Some
        &&& self.index@.wf()
        &&& self.index@.mirrors(self@)
        &&& self.index@.open ==> replay(scan(self.log@).frames)->0.open
    }

    /// Recoverability: what a store tells is what its bytes tell to whoever
    /// reads them anew, every record of every session included. The two
    /// differ in one thing at most: a newest session whose stop marker is
    /// missing is open to the bytes, and may be closed to the store.
    pub proof fn lemma_recoverable(&self)
        requires
            self.wf(),
        ensures
            self@.wf(),
            self@.end() == self.log_bytes().len(),
            scan(self.log_bytes()).whole(self.log_bytes().len()),
            recover(self.log_bytes()) is Ok,
            recover(self.log_bytes())->Ok_0.sealed() == self@.sealed(),
            self@.open ==> recover(self.log_bytes())->Ok_0 == self@,
            forall|i: int|
                0 <= i < self@.sessions.len() ==> lies_in(
                    #[trigger] self@.sessions[i],
                    self.log_bytes(),
                ),
    {
        lemma_recovered_sessions_lie_in_log(self.log@);
    }

    /// Opens the store on the bytes of a log; no bytes are a new log.
    ///
    /// The index is rebuilt from the bytes. Bytes at the end that stop
    /// inside a frame are an unfinished write: they are dropped, and the
    /// next frame is written where they began. A session whose stop marker
    /// is missing is closed. Damaged bytes, and a frame out of place, fail
    /// the opening with `Corrupt`.
    pub fn open_or_create(image: Vec<u8>) -> (r: Result<SessionStore, Error>)
        ensures
            match r {
                Ok(store) => {
                    &&& store.wf()
                    &&& recover(image@) is Ok
                    &&& store@ == recover(image@)->Ok_0.sealed()
                    &&& store.log_bytes() == image@.take(scan(image@).valid_len as int)
                },
                Err(e) => e == Error::Decode(DecodeError::Corrupt) && recover(image@) is Err,
            },
    {
        let mut log = image;
        match SessionIndex::rebuild(log.as_slice()) {
            Err(e) => Err(Error::Decode(e)),
            Ok(index) => {
                let mut index = index;
                let keep = index.valid_len();
                proof {
                    lemma_scan_valid_prefix(log@);
                }
                log.truncate(keep);
                index.seal();
                Ok(SessionStore { log, index })
            },
        }
    }

    /// Adds `frame` to the log and to the index.
    fn write(&mut self, frame: &Frame)
        requires
            old(self).wf(),
            old(self)@.step(*frame) is Some,
        ensures
            final(self).wf(),
            final(self)@ == old(self)@.step(*frame)->0,
            final(self).log_bytes() == old(self).log_bytes() + frame.encoding(),
    {
        let ghost before = replay(scan(self.log@).frames)->0;
        let mut bytes = encode_frame(frame);
        proof {
            lemma_scan_whole_is_encoding(self.log@);
            lemma_replay_wf(scan(self.log@).frames);
            lemma_scan_push(self.log@, *frame);
            lemma_replay_push(scan(self.log@).frames, *frame);
            lemma_encoding_len(*frame);
        }
        self.log.append(&mut bytes);
        let total = self.log.len();
        proof {
            assert(old(self)@.end() == before.end());
            assert(before.end() == old(self).log@.len());
            assert(total == old(self).log@.len() + frame.encoded_len());
        }
        let ok = self.index.apply(frame, Ghost(old(self)@));
        proof {
            assert(ok);
            assert(before.step(*frame) == old(self)@.step(*frame));
        }
    }

    /// The identifier of the open session, if one is open.
    pub fn open_session(&self) -> (id: Option<u64>)
        requires
            self.wf(),
        ensures
            id == self@.open_id(),
    {
        proof {
            if self.index@.entries.len() > 0 {
                assert(describes(self.index@.entries.last(), self@.sessions.last()));
            }
        }
        self.index.open_session()
    }

    /// The identifier that `start_session` would give a session started at
    /// time `now`, or the error with which it would fail.
    pub fn next_session_id(&self, now: u64) -> (r: Result<u64, Error>)
        requires
            self.wf(),
        ensures
            match r {
                Ok(id) => !self@.open && self@.next_id(now) == Some(id),
                Err(e) => if self@.open {
                    e == Error::SessionAlreadyOpen
                } else {
                    e == Error::IdSpaceExhausted && self@.next_id(now) is None
                },
            },
    {
        proof {
            if self.index@.entries.len() > 0 {
                assert(describes(self.index@.entries.last(), self@.sessions.last()));
            }
        }
        if self.index.open_session().is_some() {
            return Err(Error::SessionAlreadyOpen);
        }
        match self.index.newest_id() {
            None => Ok(now),
            Some(newest) => {
                if newest == u64::MAX {
                    Err(Error::IdSpaceExhausted)
                } else if now > newest {
                    Ok(now)
                } else {
                    Ok(newest + 1)
                }
            },
        }
    }

    /// Starts a session at time `now` and returns its identifier.
    ///
    /// The identifier is `now`, or the newest session's identifier plus one
    /// where `now` is not greater than that; so it is greater than every
    /// identifier given before. Fails with `SessionAlreadyOpen` while a
    /// session is open, and with `IdSpaceExhausted` when no greater
    /// identifier is left; a call that fails changes nothing.
    pub fn start_session(&mut self, now: u64) -> (r: Result<u64, Error>)
        requires
            old(self).wf(),
        ensures
            final(self).wf(),
            match r {
                Ok(id) => {
                    &&& !old(self)@.open
                    &&& old(self)@.next_id(now) == Some(id)
                    &&& forall|i: int|
                        0 <= i < old(self)@.sessions.len() ==> (#[trigger] old(
                            self,
                        )@.sessions[i]).id < id
                    &&& final(self)@ == old(self)@.started(id)
                    &&& final(self).log_bytes() == old(self).log_bytes() + Frame::Start(
                        id,
                    ).encoding()
                },
                Err(e) => {
                    &&& final(self)@ == old(self)@
                    &&& final(self).log_bytes() == old(self).log_bytes()
                    &&& if old(self)@.open {
                        e == Error::SessionAlreadyOpen
                    } else {
                        e == Error::IdSpaceExhausted && old(self)@.next_id(now) is None
                    }
                },
            },
    {
        match self.next_session_id(now) {
            Err(e) => Err(e),
            Ok(id) => {
                proof {
                    self.lemma_recoverable();
                    assert forall|i: int| 0 <= i < self@.sessions.len() implies (
                    #[trigger] self@.sessions[i]).id < id by {
                        if i < self@.sessions.len() - 1 {
                            lemma_ids_increase(self@, i, self@.sessions.len() - 1);
                        }
                    }
                }
                self.write(&Frame::Start(id));
                Ok(id)
            },
        }
    }

    /// Appends `record` to the open session, behind the records that it
    /// has. Fails with `NoOpenSession` when no session is open, and then
    /// changes nothing.
    pub fn append(&mut self, record: &Record) -> (r: Result<(), Error>)
        requires
            old(self).wf(),
        ensures
            final(self).wf(),
            match r {
                Ok(_) => {
                    &&& old(self)@.open
                    &&& final(self)@ == old(self)@.appended(*record)
                    &&& final(self).log_bytes() == old(self).log_bytes() + Frame::Record(
                        *record,
                    ).encoding()
                },
                Err(e) => {
                    &&& e == Error::NoOpenSession
                    &&& !old(self)@.open
                    &&& final(self)@ == old(self)@
                    &&& final(self).log_bytes() == old(self).log_bytes()
                },
            },
    {
        if self.open_session().is_none() {
            return Err(Error::NoOpenSession);
        }
        self.write(&Frame::Record(*record));
        Ok(())
    }

    /// Stops the open session: writes its stop marker and closes it. Fails
    /// with `NoOpenSession` when no session is open, and then changes
    /// nothing.
    pub fn stop_session(&mut self) -> (r: Result<(), Error>)
        requires
            old(self).wf(),
        ensures
            final(self).wf(),
            match r {
                Ok(_) => {
                    &&& old(self)@.open
                    &&& final(self)@ == old(self)@.stopped()
                    &&& final(self).log_bytes() == old(self).log_bytes() + Frame::Stop(
                        old(self)@.sessions.last().id,
                    ).encoding()
                },
                Err(e) => {
                    &&& e == Error::NoOpenSession
                    &&& !old(self)@.open
                    &&& final(self)@ == old(self)@
                    &&& final(self).log_bytes() == old(self).log_bytes()
                },
            },
    {
        match self.open_session() {
            None => Err(Error::NoOpenSession),
            Some(id) => {
                self.write(&Frame::Stop(id));
                Ok(())
            },
        }
    }

    /// The identifiers of all sessions, oldest first.
    pub fn list_sessions(&self) -> (ids: Vec<u64>)
        requires
            self.wf(),
        ensures
            ids@ == self@.ids(),
    {
        let ids = self.index.session_ids();
        proof {
            assert forall|i: int| 0 <= i < self@.sessions.len() implies self.index@.ids()[i]
                == self@.ids()[i] by {
                assert(describes(self.index@.entries[i], self@.sessions[i]));
            }
            assert(self.index@.ids() =~= self@.ids());
        }
        ids
    }

    /// The records of session `id`, in the order in which they were
    /// appended, decoded from the session's bytes in the log. For an open
    /// session these are all records appended so far. Fails with `NotFound`
    /// when no session has this identifier.
    pub fn get_session(&self, id: u64) -> (r: Result<Vec<Record>, Error>)
        requires
            self.wf(),
        ensures
            match r {
                Ok(v) => exists|i: int|
                    0 <= i < self@.sessions.len() && (#[trigger] self@.sessions[i]).id == id && v@
                        == self@.sessions[i].records,
                Err(e) => e == Error::NotFound && !self@.has(id),
            },
    {
        match self.index.range_for(id) {
            Err(e) => {
                proof {
                    if self@.has(id) {
                        let i = choose|i: int|
                            0 <= i < self@.sessions.len() && (#[trigger] self@.sessions[i]).id
                                == id;
                        assert(describes(self.index@.entries[i], self@.sessions[i]));
                    }
                }
                Err(e)
            },
            Ok((start, end)) => {
                proof {
                    self.lemma_recoverable();
                    let i = choose|i: int|
                        0 <= i < self.index@.entries.len() && (#[trigger] self.index@.entries[i]).id
                            == id && self.index@.entries[i].start == start
                            && self.index@.entries[i].end == end;
                    assert(describes(self.index@.entries[i], self@.sessions[i]));
                    assert(lies_in(self@.sessions[i], self.log@));
                }
                let all = self.log.as_slice();
                let bytes = &all[start..end];
                match read_records(bytes) {
                    Ok(records) => Ok(records),
                    Err(e) => Err(Error::Decode(e)),
                }
            },
        }
    }

    /// The record that was appended last, of whatever session; `None` while
    /// the log holds no record. Kept at hand, not searched for.
    pub fn get_last(&self) -> (r: Option<Record>)
        requires
            self.wf(),
        ensures
            r == self@.last,
    {
        self.index.last_record()
    }

    /// The bytes of the log: what is to be kept for the store to be opened
    /// on again.
    pub fn bytes(&self) -> (b: &[u8])
        ensures
            b@ == self.log_bytes(),
    {
        self.log.as_slice()
    }

    /// The write cursor: the offset at which the next frame is written,
    /// just behind the last frame.
    pub fn write_cursor(&self) -> (at: usize)
        ensures
            at == self.log_bytes().len(),
    {
        self.log.len()
    }
}

} // verus!
