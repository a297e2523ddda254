//! The read-only side of the store.

use vstd::prelude::*;
use crate::codec::Record;
use crate::error::Error;
use crate::model::LogModel;
use crate::store::SessionStore;

verus! {

/// What a consumer of the log gets to see: the three queries, and no way
/// to write. The facade borrows the store, so for as long as it lives
/// nothing can be written, and every answer is of one and the same state.
pub struct QueryFacade<'a> {
    store: &'a SessionStore,
}

impl<'a> View for QueryFacade<'a> {
    type V = LogModel;

    /// What the store behind the facade tells.
    closed spec fn view(&self) -> LogModel {
        self.store@
    }
}

impl<'a> QueryFacade<'a> {
    /// Whether the store behind the facade is well-formed.
    pub closed spec fn wf(&self) -> bool {
        self.store.wf()
    }

    /// A facade on `store`.
    pub fn new(store: &'a SessionStore) -> (facade: QueryFacade<'a>)
        requires
            store.wf(),
        ensures
            facade.wf(),
            facade@ == store@,
    {
        QueryFacade { store }
    }

    /// The identifiers of all sessions, oldest first.
    pub fn list_sessions(&self) -> (ids: Vec<u64>)
        requires
            self.wf(),
        ensures
            ids@ == self@.ids(),
    {
        self.store.list_sessions()
    }

    /// The records of session `id`, in the order in which they were
    /// appended; `NotFound` when no session has this identifier.
    pub fn get_session(&self, id: u64) -> (r: Result<Vec<Record>, Error>)
        requires
            self.wf(),
        ensures
            match r {
                Ok(v) => exists|i: int|
                    0 <= i < self@.sessions.len() && (#[trigger] self@.sessions[i]).id == id && v@
                        == self@.sessions[i].records,
                Err(e) => e == Error::NotFound && !self@.has(id),
            },
    {
        self.store.get_session(id)
    }

    /// The record that was appended last, of whatever session.
    pub fn get_last(&self) -> (r: Option<Record>)
        requires
            self.wf(),
        ensures
            r == self@.last,
    {
        self.store.get_last()
    }
}

} // verus!
