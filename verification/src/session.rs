//! The search session registry: each submitted search gets a randomly
//! generated id and a buffer that accumulates streamed `(result, peer)`
//! pairs in arrival order. Retrieval drains the buffer atomically —
//! results drained once are never returned again — and an unknown id is a
//! typed error, never a crash. The registry itself is plain state; the
//! lock and the background consumer task that feed it live with the
//! runtime, outside the library.

use vstd::prelude::*;
use std::collections::HashMap;
use crate::documents::DocumentResult;

verus! {

broadcast use vstd::std_specs::hash::group_hash_axioms;

/// A session lookup failed.
#[derive(Clone, Copy, Debug, PartialEq, Eq, Structural)]
pub enum SessionError {
    /// The given id names no session in the registry.
    UnknownSession,
}

/// One streamed search result, attributed to the peer that sent it.
pub struct SessionEntry {
    pub result: DocumentResult,
    pub peer: String,
}

/// Relies on rand::random: a pseudo-random id; nothing is assumed about
/// its value, and the registry works for every outcome.
#[verifier::external_body]
fn random_id() -> (r: u64) {
    rand::random()
}

/// The registry of live search sessions.
pub struct SearchPark {
    pub sessions: HashMap<u64, Vec<SessionEntry>>,
}

impl SearchPark {
    /// An empty registry.
    pub fn new() -> (r: SearchPark)
        ensures
            r.sessions@ == Map::<u64, Vec<SessionEntry>>::empty(),
    {
        SearchPark { sessions: HashMap::new() }
    }

    /// Registers a new session under a freshly drawn id and returns the
    /// id. Its buffer starts empty; a colliding id (never expected, but
    /// possible with random ids) would restart that session's buffer.
    pub fn insert(&mut self) -> (id: u64)
        ensures
            final(self).sessions@ == old(self).sessions@.insert(
                id,
                final(self).sessions@[id],
            ),
            final(self).sessions@.contains_key(id),
            final(self).sessions@[id]@ == Seq::<SessionEntry>::empty(),
    {
        let id = random_id();
        let empty: Vec<SessionEntry> = Vec::new();
        self.sessions.insert(id, empty);
        id
    }

    /// Appends one streamed result to the session's buffer, keeping
    /// arrival order; fails on an unknown id and changes nothing then.
    pub fn push_result(&mut self, id: u64, entry: SessionEntry) -> (r: Result<(), SessionError>)
        ensures
            match r {
                Ok(()) => old(self).sessions@.contains_key(id)
                    && final(self).sessions@ == old(self).sessions@.insert(id, final(self).sessions@[id])
                    && final(self).sessions@.contains_key(id)
                    && final(self).sessions@[id]@ == old(self).sessions@[id]@.push(entry),
                Err(SessionError::UnknownSession) => !old(self).sessions@.contains_key(id)
                    && final(self).sessions@ == old(self).sessions@,
            },
    {
        match self.sessions.remove(&id) {
            Some(mut buf) => {
                buf.push(entry);
                self.sessions.insert(id, buf);
                proof {
                    assert(final(self).sessions@ =~= old(self).sessions@.insert(
                        id,
                        final(self).sessions@[id],
                    ));
                }
                Ok(())
            },
            None => {
                proof {
                    assert(final(self).sessions@ =~= old(self).sessions@);
                }
                Err(SessionError::UnknownSession)
            },
        }
    }

    /// Atomically takes everything the session has buffered, leaving the
    /// buffer empty but the session alive: results are partitioned over
    /// drains, never duplicated and never lost. An unknown id is a typed
    /// error and changes nothing.
    pub fn get_results(&mut self, id: u64) -> (r: Result<Vec<SessionEntry>, SessionError>)
        ensures
            match r {
                Ok(buf) => old(self).sessions@.contains_key(id)
                    && buf == old(self).sessions@[id]
                    && final(self).sessions@ == old(self).sessions@.insert(id, final(self).sessions@[id])
                    && final(self).sessions@.contains_key(id)
                    && final(self).sessions@[id]@ == Seq::<SessionEntry>::empty(),
                Err(SessionError::UnknownSession) => !old(self).sessions@.contains_key(id)
                    && final(self).sessions@ == old(self).sessions@,
            },
    {
        match self.sessions.remove(&id) {
            Some(buf) => {
                let empty: Vec<SessionEntry> = Vec::new();
                self.sessions.insert(id, empty);
                proof {
                    assert(final(self).sessions@ =~= old(self).sessions@.insert(
                        id,
                        final(self).sessions@[id],
                    ));
                }
                Ok(buf)
            },
            None => {
                proof {
                    assert(final(self).sessions@ =~= old(self).sessions@);
                }
                Err(SessionError::UnknownSession)
            },
        }
    }
}

} // verus!
