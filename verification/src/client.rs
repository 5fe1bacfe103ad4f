//! The port to the remote document service, and a table-backed client.
//!
//! The store and the traversal depend on the remote only through
//! [`FetchClient`]: one operation that fetches the document named by an
//! identifier. A client abstractly holds a fixed table of documents and a
//! log of every fetch asked of it; what a fetch promises is stated over
//! those two, and nothing more, because a remote call may fail at any time.

use crate::doc::{table_view, DocView, Document};
use std::collections::HashMap;
use vstd::prelude::*;

verus! {

/// Why a remote fetch failed. The client supplies the cause; the store
/// passes it through unchanged.
#[derive(Clone, Copy, Debug, PartialEq, Eq, Structural)]
pub enum FetchError {
    /// The transport failed.
    Network,
    /// The remote holds no document with the asked-for identifier.
    NotFound,
    /// The caller may not read the document.
    Unauthorized,
    /// The remote asked the caller to slow down.
    RateLimited,
}

/// A client that fetches remote documents by identifier.
///
/// `docs()` is the table of documents the remote holds, fixed for the
/// client's lifetime; `log()` records every fetch asked of the client so
/// far, in order. A fetch may fail at any time, but every call is logged,
/// and a fetch that succeeds returns exactly the remote's document for the
/// asked-for identifier.
pub trait FetchClient: Sized {
    /// The documents the remote holds, by identifier. A client that states
    /// nothing else models an empty remote, on which every fetch fails.
    open spec fn docs(&self) -> Map<u64, DocView> {
        Map::<u64, DocView>::empty()
    }

    /// Every identifier this client was asked to fetch, oldest first.
    open spec fn log(&self) -> Seq<u64> {
        Seq::<u64>::empty()
    }

    /// What each fetch asked of this client came to, oldest first: the
    /// document's value on success, the error on failure. Entry `i` is the
    /// outcome of the call logged at entry `i` of `log()`.
    open spec fn outcomes(&self) -> Seq<Result<DocView, FetchError>> {
        Seq::<Result<DocView, FetchError>>::empty()
    }

    /// Fetch the document named `id`.
    fn fetch(&mut self, id: u64) -> (r: Result<Document, FetchError>)
        ensures
            final(self).docs() == old(self).docs(),
            final(self).log() == old(self).log().push(id),
            r matches Ok(d) ==> final(self).docs().contains_key(id) && d@ == final(self).docs()[id],
            r matches Ok(d) ==> final(self).outcomes() == old(self).outcomes().push(Ok(d@)),
            r matches Err(e) ==> final(self).outcomes() == old(self).outcomes().push(Err(e)),
    ;
}

/// A client backed by a local table: it serves exactly the documents put
/// into it and fails with [`FetchError::NotFound`] on every other
/// identifier.
pub struct TableClient {
    table: HashMap<u64, Document>,
    failures: HashMap<u64, FetchError>,
    calls: Vec<u64>,
    served: Ghost<Seq<Result<DocView, FetchError>>>,
}

impl TableClient {
    /// The identifiers this client refuses, and with which error each one
    /// is refused.
    pub closed spec fn denied(&self) -> Map<u64, FetchError> {
        self.failures@
    }

    /// An empty client: no documents, no refusals, nothing asked yet.
    pub fn new() -> (c: TableClient)
        ensures
            c.docs() == Map::<u64, DocView>::empty(),
            c.denied() == Map::<u64, FetchError>::empty(),
            c.log() == Seq::<u64>::empty(),
            c.outcomes() == Seq::<Result<DocView, FetchError>>::empty(),
    {
        let c = TableClient {
            table: HashMap::new(),
            failures: HashMap::new(),
            calls: Vec::new(),
            served: Ghost(Seq::empty()),
        };
        proof {
            assert(c.docs() =~= Map::<u64, DocView>::empty());
        }
        c
    }

    /// Put `doc` on the simulated remote under `id`, replacing anything
    /// already there.
    pub fn put(&mut self, id: u64, doc: Document)
        ensures
            final(self).docs() == old(self).docs().insert(id, doc@),
            final(self).denied() == old(self).denied(),
            final(self).log() == old(self).log(),
            final(self).outcomes() == old(self).outcomes(),
    {
        let ghost dv = doc@;
        self.table.insert(id, doc);
        proof {
            assert(self.docs() =~= old(self).docs().insert(id, dv));
        }
    }

    /// Make every fetch of `id` fail with `e`, even if a document sits
    /// under `id`: the remote may refuse what it holds.
    pub fn deny(&mut self, id: u64, e: FetchError)
        ensures
            final(self).docs() == old(self).docs(),
            final(self).denied() == old(self).denied().insert(id, e),
            final(self).log() == old(self).log(),
            final(self).outcomes() == old(self).outcomes(),
    {
        self.failures.insert(id, e);
    }

    /// The identifiers asked of this client so far, oldest first.
    pub fn calls(&self) -> (v: &Vec<u64>)
        ensures
            v@ == self.log(),
    {
        &self.calls
    }
}

impl FetchClient for TableClient {
    closed spec fn docs(&self) -> Map<u64, DocView> {
        table_view(self.table@)
    }

    closed spec fn log(&self) -> Seq<u64> {
        self.calls@
    }

    closed spec fn outcomes(&self) -> Seq<Result<DocView, FetchError>> {
        self.served@
    }

    fn fetch(&mut self, id: u64) -> (r: Result<Document, FetchError>) {
        self.calls.push(id);
        let refusal = self.failures.get(&id);
        if let Some(e) = refusal {
            let err = *e;
            self.served = Ghost(self.served@.push(Err(err)));
            return Err(err);
        }
        match self.table.get(&id) {
            Some(d) => {
                let copy = d.duplicate();
                self.served = Ghost(self.served@.push(Ok(copy@)));
                Ok(copy)
            },
            None => {
                self.served = Ghost(self.served@.push(Err(FetchError::NotFound)));
                Err(FetchError::NotFound)
            },
        }
    }
}

} // verus!
