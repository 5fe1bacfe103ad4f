//! The memoizing document store and the closure traversal over it.

use crate::client::{FetchClient, FetchError};
use crate::doc::{doc_children, table_view, DocView, Document};
use crate::fifo::{fifo_elems, fifo_new, fifo_pop, fifo_push};
use crate::graph::{
    child_union, lemma_child_union_finite, lemma_frontier_crossing, lemma_reach_from_zero,
    lemma_reach_within_mono, lemma_reach_within_seed, lemma_reach_within_step,
    lemma_reachable_in_closed, lemma_reachable_seed, lemma_reachable_step, reach_from,
    reach_within, reachable, step_to,
};
use std::collections::{HashMap, HashSet};
use vstd::prelude::*;

verus! {

broadcast use vstd::seq_lib::lemma_seq_contains_after_push, vstd::seq_lib::seq_to_set_is_finite;

/// What went wrong inside the store.
#[derive(Clone, Copy, Debug, PartialEq, Eq, Structural)]
pub enum StoreError {
    /// The remote client failed; its error, unchanged.
    Fetch(FetchError),
    /// A just-recorded identifier could not be found again. The store's
    /// contracts rule this out: no method ever returns it.
    LookupInconsistency,
}

/// A memoizing store of fetched documents. It owns the remote client and an
/// in-memory table keyed by identifier; once a document is recorded under
/// its identifier it is never evicted or replaced, so the remote is asked
/// for each identifier at most once in the store's lifetime.
pub struct Store<C: FetchClient> {
    client: C,
    map: HashMap<u64, Document>,
}

impl<C: FetchClient> Store<C> {
    /// The fetched documents, by identifier.
    pub closed spec fn cache(&self) -> Map<u64, DocView> {
        table_view(self.map@)
    }

    /// The documents the remote holds, as the client states them.
    pub closed spec fn docs(&self) -> Map<u64, DocView> {
        self.client.docs()
    }

    /// The identifiers asked of the client so far, oldest first.
    pub closed spec fn log(&self) -> Seq<u64> {
        self.client.log()
    }

    /// What each fetch asked of the client came to, oldest first.
    pub closed spec fn outcomes(&self) -> Seq<Result<DocView, FetchError>> {
        self.client.outcomes()
    }

    /// Every cached document is the remote's document for its identifier.
    pub open spec fn wf(&self) -> bool {
        forall|k: u64| #[trigger]
            self.cache().contains_key(k) ==> self.docs().contains_key(k) && self.cache()[k]
                == self.docs()[k]
    }

    /// A store over `client` with nothing fetched yet.
    pub fn new(client: C) -> (s: Store<C>)
        ensures
            s.wf(),
            s.cache() == Map::<u64, DocView>::empty(),
            s.docs() == client.docs(),
            s.log() == client.log(),
            s.outcomes() == client.outcomes(),
    {
        let s = Store { client, map: HashMap::new() };
        proof {
            assert(s.cache() =~= Map::<u64, DocView>::empty());
        }
        s
    }

    /// The client, for looking at what was asked of it.
    pub fn client_ref(&self) -> (c: &C)
        ensures
            c.docs() == self.docs(),
            c.log() == self.log(),
            c.outcomes() == self.outcomes(),
    {
        &self.client
    }

    /// A pure local lookup: the cached document for `id`, if one was ever
    /// fetched, and nothing otherwise. No side effects.
    pub fn get(&self, id: u64) -> (r: Option<&Document>)
        ensures
            match r {
                Some(d) => self.cache().contains_key(id) && d@ == self.cache()[id],
                None => !self.cache().contains_key(id),
            },
    {
        self.map.get(&id)
    }

    /// The cached document for `id`, fetching and recording it first on a
    /// miss. A hit touches neither the store nor the client, so the remote
    /// is asked for `id` at most once per store lifetime. A failed fetch
    /// leaves the cache as it was, and the client's error comes back
    /// unchanged, wrapped as [`StoreError::Fetch`]: the result on a miss is
    /// the fetch's own outcome, success for success and that error for that
    /// failure.
    pub fn get_or_fetch(&mut self, id: u64) -> (r: Result<&Document, StoreError>)
        requires
            old(self).wf(),
        ensures
            final(self).wf(),
            final(self).docs() == old(self).docs(),
            old(self).cache().contains_key(id) ==> *final(self) == *old(self) && (r matches Ok(d)
                && d@ == old(self).cache()[id]),
            !old(self).cache().contains_key(id) ==> final(self).log() == old(self).log().push(id),
            r matches Ok(d) ==> final(self).cache() == old(self).cache().insert(id, d@)
                && final(self).docs().contains_key(id) && d@ == final(self).docs()[id],
            !old(self).cache().contains_key(id) ==> (r matches Ok(d) ==> final(self).outcomes()
                == old(self).outcomes().push(Ok(d@))),
            r matches Err(e) ==> final(self).cache() == old(self).cache()
                && !old(self).cache().contains_key(id) && (e matches StoreError::Fetch(ce)
                && final(self).outcomes() == old(self).outcomes().push(Err(ce))),
    {
        if !self.map.contains_key(&id) {
            match self.client.fetch(id) {
                Ok(doc) => {
                    let ghost dv = doc@;
                    self.map.insert(id, doc);
                    proof {
                        assert(self.cache() =~= old(self).cache().insert(id, dv));
                    }
                },
                Err(e) => {
                    proof {
                        assert(self.cache() =~= old(self).cache());
                    }
                    return Err(StoreError::Fetch(e));
                },
            }
        }
        match self.map.get(&id) {
            Some(d) => {
                proof {
                    if old(self).cache().contains_key(id) {
                        assert(old(self).cache().insert(id, old(self).cache()[id]) =~= old(self).cache());
                    }
                }
                Ok(d)
            },
            None => Err(StoreError::LookupInconsistency),
        }
    }

    /// Fetch the closure of documents reachable from `seeds`: a
    /// breadth-first walk that fetches every reachable identifier at most
    /// once. On success the cache holds what it held before plus exactly
    /// the reachable identifiers; the first fetch failure ends the walk at
    /// once, is returned unchanged, and every document fetched before it
    /// stays cached.
    #[verifier::loop_isolation(false)]
    #[verifier::rlimit(100)]
    pub fn fetch_all(&mut self, seeds: &Vec<u64>) -> (r: Result<(), StoreError>)
        requires
            old(self).wf(),
            old(self).docs().dom().finite(),
        ensures
            final(self).wf(),
            final(self).docs() == old(self).docs(),
            forall|k: u64| #[trigger]
                old(self).cache().contains_key(k) ==> final(self).cache().contains_key(k) && final(self).cache()[k] == old(self).cache()[k],
            forall|k: u64| #[trigger]
                final(self).cache().contains_key(k) ==> old(self).cache().contains_key(k)
                    || reachable(old(self).docs(), seeds@.to_set(), k),
            old(self).log().len() <= final(self).log().len(),
            final(self).log().subrange(0, old(self).log().len() as int) == old(self).log(),
            forall|p: int, q: int|
                #![trigger final(self).log()[p], final(self).log()[q]]
                old(self).log().len() <= p < q < final(self).log().len() ==> final(self).log()[p]
                    != final(self).log()[q],
            forall|p: int|
                old(self).log().len() <= p < final(self).log().len() ==> !old(self).cache().contains_key(#[trigger] final(self).log()[p]) && reachable(
                    old(self).docs(),
                    seeds@.to_set(),
                    final(self).log()[p],
                ),
            r is Ok ==> forall|k: u64|
                reachable(old(self).docs(), seeds@.to_set(), k) ==> final(self).cache().contains_key(k),
            r is Ok ==> forall|p: int|
                old(self).log().len() <= p < final(self).log().len() ==> final(self).cache().contains_key(#[trigger] final(self).log()[p]),
            r is Err ==> old(self).log().len() < final(self).log().len() && !final(self).cache().contains_key(final(self).log().last()) && forall|p: int|
                old(self).log().len() <= p < final(self).log().len() - 1 ==> final(self).cache().contains_key(#[trigger] final(self).log()[p]),
            r matches Err(e) ==> e matches StoreError::Fetch(_),
            forall|k: u64| #[trigger]
                final(self).cache().contains_key(k) && !old(self).cache().contains_key(k)
                    ==> exists|p: int|
                        old(self).log().len() <= p < final(self).log().len() && final(self).log()[p]
                            == k,
            final(self).outcomes().subrange(0, old(self).outcomes().len() as int) == old(self).outcomes(),
            final(self).outcomes().len() - old(self).outcomes().len() == final(self).log().len()
                - old(self).log().len(),
            forall|j: int|
                old(self).outcomes().len() <= j < final(self).outcomes().len() - 1 ==> (
                #[trigger] final(self).outcomes()[j]) is Ok,
            r is Ok ==> forall|j: int|
                old(self).outcomes().len() <= j < final(self).outcomes().len() ==> (
                #[trigger] final(self).outcomes()[j]) is Ok,
            r matches Err(StoreError::Fetch(e)) ==> old(self).outcomes().len() < final(self).outcomes().len() && final(self).outcomes().last() == Err::<DocView, FetchError>(e),
            forall|p: int, q: int, n: nat|
                #![trigger final(self).log()[p], reach_within(old(self).docs(), seeds@.to_set(), final(self).log()[q], n)]
                old(self).log().len() <= p < q < final(self).log().len() && reach_within(
                    old(self).docs(),
                    seeds@.to_set(),
                    final(self).log()[q],
                    n,
                ) ==> reach_within(old(self).docs(), seeds@.to_set(), final(self).log()[p], n),
    {
        let ghost docs0 = old(self).docs();
        let ghost cache0 = old(self).cache();
        let ghost log0 = old(self).log();
        let ghost out0 = old(self).outcomes();
        let ghost seedset = seeds@.to_set();
        let ghost space = seedset.union(child_union(docs0));
        proof {
            lemma_child_union_finite(docs0);
            assert(seedset.finite());
            assert(space.finite());
            assert(log0.subrange(0, log0.len() as int) =~= log0);
            assert(out0.subrange(0, out0.len() as int) =~= out0);
        }
        let mut queue = fifo_new();
        let mut visited: HashSet<u64> = HashSet::new();
        let ghost mut lvl: Map<u64, nat> = Map::<u64, nat>::empty();

        let mut i: usize = 0;
        while i < seeds.len()
            invariant
                i <= seeds.len(),
                forall|v: u64| #[trigger]
                    visited@.contains(v) <==> fifo_elems(queue).contains(v),
                visited@.subset_of(seedset),
                forall|k: int| 0 <= k < i ==> visited@.contains(#[trigger] seeds@[k]),
                forall|v: u64| #[trigger]
                    visited@.contains(v) ==> lvl.contains_key(v) && lvl[v] == 0,
                forall|p: int, q: int|
                    #![trigger fifo_elems(queue)[p], fifo_elems(queue)[q]]
                    0 <= p < q < fifo_elems(queue).len() ==> fifo_elems(queue)[p] != fifo_elems(
                        queue,
                    )[q],
            decreases seeds.len() - i,
        {
            let id = seeds[i];
            if !visited.contains(&id) {
                let ghost qe_old = fifo_elems(queue);
                proof {
                    assert(seeds@.contains(seeds@[i as int]));
                    assert(seedset.contains(id));
                    assert forall|p: int| 0 <= p < qe_old.len() implies qe_old[p] != id by {
                        assert(qe_old.contains(qe_old[p]));
                    }
                }
                visited.insert(id);
                fifo_push(&mut queue, id);
                proof {
                    lvl = lvl.insert(id, 0);
                }
            }
            i = i + 1;
        }

        proof {
            assert forall|v: u64| #[trigger] visited@.contains(v) implies reachable(
                docs0,
                seedset,
                v,
            ) by {
                lemma_reachable_seed(docs0, seedset, v);
            }
            assert forall|s: u64| #[trigger] seedset.contains(s) implies visited@.contains(s) by {
                let k = choose|k: int| 0 <= k < seeds@.len() && seeds@[k] == s;
                assert(visited@.contains(seeds@[k]));
            }
            assert forall|v: u64| #[trigger] visited@.contains(v) implies reach_within(
                docs0,
                seedset,
                v,
                lvl[v],
            ) by {
                lemma_reach_within_seed(docs0, seedset, v);
            }
            assert forall|k: int| 0 <= k < fifo_elems(queue).len() implies visited@.contains(
                #[trigger] fifo_elems(queue)[k],
            ) && lvl[fifo_elems(queue)[k]] == 0 by {
                assert(fifo_elems(queue).contains(fifo_elems(queue)[k]));
            }
        }

        let mut done: bool = false;
        while !done
            invariant
                done ==> fifo_elems(queue).len() == 0,
                self.wf(),
                self.docs() == docs0,
                forall|k: u64| #[trigger]
                    cache0.contains_key(k) ==> self.cache().contains_key(k) && self.cache()[k]
                        == cache0[k],
                forall|k: u64| #[trigger]
                    self.cache().contains_key(k) ==> cache0.contains_key(k) || visited@.contains(
                        k,
                    ),
                forall|v: u64| #[trigger] visited@.contains(v) ==> reachable(docs0, seedset, v),
                forall|k: int|
                    0 <= k < fifo_elems(queue).len() ==> visited@.contains(
                        #[trigger] fifo_elems(queue)[k],
                    ),
                forall|p: int, q: int|
                    #![trigger fifo_elems(queue)[p], fifo_elems(queue)[q]]
                    0 <= p < q < fifo_elems(queue).len() ==> fifo_elems(queue)[p] != fifo_elems(
                        queue,
                    )[q],
                forall|v: u64| #[trigger]
                    visited@.contains(v) && !fifo_elems(queue).contains(v)
                        ==> self.cache().contains_key(v) && docs0.contains_key(v) && (forall|
                        c: u64,
                    | #[trigger]
                        doc_children(docs0[v]).contains(c) ==> visited@.contains(c)),
                forall|s: u64| #[trigger] seedset.contains(s) ==> visited@.contains(s),
                visited@.subset_of(space),
                space.finite(),
                log0.len() <= self.log().len(),
                self.log().subrange(0, log0.len() as int) == log0,
                forall|p: int, q: int|
                    #![trigger self.log()[p], self.log()[q]]
                    log0.len() <= p < q < self.log().len() ==> self.log()[p] != self.log()[q],
                forall|p: int|
                    log0.len() <= p < self.log().len() ==> !cache0.contains_key(
                        #[trigger] self.log()[p],
                    ) && self.cache().contains_key(self.log()[p]) && reachable(
                        docs0,
                        seedset,
                        self.log()[p],
                    ),
                self.outcomes().subrange(0, out0.len() as int) == out0,
                self.outcomes().len() - out0.len() == self.log().len() - log0.len(),
                forall|j: int|
                    out0.len() <= j < self.outcomes().len() ==> (#[trigger] self.outcomes()[j])
                        is Ok,
                forall|k: u64| #[trigger]
                    self.cache().contains_key(k) && !cache0.contains_key(k) ==> exists|p: int|
                        log0.len() <= p < self.log().len() && self.log()[p] == k,
                forall|v: u64| #[trigger] visited@.contains(v) ==> lvl.contains_key(v),
                forall|i: int, j: int|
                    #![trigger lvl[fifo_elems(queue)[i]], lvl[fifo_elems(queue)[j]]]
                    0 <= i <= j < fifo_elems(queue).len() ==> lvl[fifo_elems(queue)[i]] <= lvl[
                        fifo_elems(queue)[j]
                    ],
                forall|i: int|
                    #![trigger lvl[fifo_elems(queue)[i]]]
                    0 <= i < fifo_elems(queue).len() ==> lvl[fifo_elems(queue)[i]] <= lvl[
                        fifo_elems(queue)[0]
                    ] + 1,
                forall|v: u64| #[trigger]
                    visited@.contains(v) ==> reach_within(docs0, seedset, v, lvl[v]),
                forall|v: u64, n: nat|
                    visited@.contains(v) && #[trigger] reach_within(docs0, seedset, v, n)
                        ==> lvl[v] <= n,
                forall|p: int|
                    log0.len() <= p < self.log().len() ==> visited@.contains(
                        #[trigger] self.log()[p],
                    ),
                forall|p: int, i: int|
                    #![trigger lvl[self.log()[p]], lvl[fifo_elems(queue)[i]]]
                    log0.len() <= p < self.log().len() && 0 <= i < fifo_elems(queue).len()
                        ==> lvl[self.log()[p]] <= lvl[fifo_elems(queue)[i]],
                forall|p: int, q: int|
                    #![trigger lvl[self.log()[p]], lvl[self.log()[q]]]
                    log0.len() <= p <= q < self.log().len() ==> lvl[self.log()[p]] <= lvl[
                        self.log()[q]
                    ],
            decreases
                space.difference(visited@).len(),
                fifo_elems(queue).len(),
                if done { 0int } else { 1int },
        {
            let ghost qe_before = fifo_elems(queue);
            let popped = fifo_pop(&mut queue);
            if popped.is_none() {
                done = true;
                continue;
            }
            let id = popped.unwrap();
            assert(visited@.contains(id)) by {
                assert(visited@.contains(qe_before[0]));
            }
            let ghost d0 = lvl[id];
            proof {
                assert forall|i: int|
                    0 <= i < fifo_elems(queue).len() implies visited@.contains(
                    #[trigger] fifo_elems(queue)[i],
                ) && d0 <= lvl[fifo_elems(queue)[i]] && lvl[fifo_elems(queue)[i]] <= d0 + 1 by {
                    assert(fifo_elems(queue)[i] == qe_before[i + 1]);
                    assert(lvl[qe_before[0]] <= lvl[qe_before[i + 1]]);
                    assert(lvl[qe_before[i + 1]] <= lvl[qe_before[0]] + 1);
                }
                assert forall|i: int, j: int|
                    #![trigger lvl[fifo_elems(queue)[i]], lvl[fifo_elems(queue)[j]]]
                    0 <= i <= j < fifo_elems(queue).len() implies lvl[fifo_elems(queue)[i]] <= lvl[
                    fifo_elems(queue)[j]
                ] by {
                    assert(fifo_elems(queue)[i] == qe_before[i + 1]);
                    assert(fifo_elems(queue)[j] == qe_before[j + 1]);
                }
            }
            let ghost cache_head = self.cache();
            let ghost log_head = self.log();
            let ghost out_head = self.outcomes();
            let children = match self.get_or_fetch(id) {
                Ok(doc) => {
                    let ghost dv = doc@;
                    let cs = doc.child_ids();
                    proof {
                        assert(dv == docs0[id]);
                        assert(cs@.to_set() == doc_children(docs0[id]));
                        assert(self.cache() == cache_head.insert(id, dv));
                        if !cache_head.contains_key(id) {
                            assert(self.log() == log_head.push(id));
                            assert(self.outcomes() == out_head.push(Ok(dv)));
                            assert(self.log().subrange(0, log0.len() as int) =~= log_head.subrange(
                                0,
                                log0.len() as int,
                            ));
                            assert(self.outcomes().subrange(0, out0.len() as int)
                                =~= out_head.subrange(0, out0.len() as int));
                            assert(!cache0.contains_key(id));
                            assert(self.log()[log_head.len() as int] == id);
                        }
                        assert forall|k: u64| #[trigger]
                            self.cache().contains_key(k) && !cache0.contains_key(k)
                            implies exists|p: int|
                            log0.len() <= p < self.log().len() && self.log()[p] == k by {
                            if cache_head.contains_key(k) {
                                let p = choose|p: int|
                                    log0.len() <= p < log_head.len() && log_head[p] == k;
                                assert(self.log()[p] == k);
                            } else {
                                assert(k == id && !cache_head.contains_key(id));
                                assert(self.log()[log_head.len() as int] == k);
                            }
                        }
                        assert forall|p: int|
                            log0.len() <= p < self.log().len() implies visited@.contains(
                            #[trigger] self.log()[p],
                        ) && lvl[self.log()[p]] <= d0 by {
                            if p < log_head.len() {
                                assert(self.log()[p] == log_head[p]);
                                assert(lvl[log_head[p]] <= lvl[qe_before[0]]);
                            } else {
                                assert(self.log()[p] == id);
                            }
                        }
                        assert forall|p: int, q: int|
                            #![trigger lvl[self.log()[p]], lvl[self.log()[q]]]
                            log0.len() <= p <= q < self.log().len() implies lvl[self.log()[p]]
                            <= lvl[self.log()[q]] by {
                            if q >= log_head.len() {
                                assert(self.log()[q] == id);
                                if p < log_head.len() {
                                    assert(self.log()[p] == log_head[p]);
                                    assert(lvl[log_head[p]] <= lvl[qe_before[0]]);
                                }
                            } else {
                                assert(self.log()[p] == log_head[p] && self.log()[q]
                                    == log_head[q]);
                            }
                        }
                    }
                    cs
                },
                Err(e) => {
                    proof {
                        assert(self.log() == log_head.push(id));
                        assert(self.log().subrange(0, log0.len() as int) =~= log_head.subrange(
                            0,
                            log0.len() as int,
                        ));
                        assert(self.outcomes().len() == out_head.len() + 1);
                        assert(self.outcomes().subrange(0, out0.len() as int)
                            =~= out_head.subrange(0, out0.len() as int));
                        assert forall|j: int|
                            out0.len() <= j < self.outcomes().len() - 1 implies (
                        #[trigger] self.outcomes()[j]) is Ok by {
                            assert(self.outcomes()[j] == out_head[j]);
                        }
                        assert forall|k: u64| #[trigger]
                            self.cache().contains_key(k) && !cache0.contains_key(k)
                            implies exists|p: int|
                            log0.len() <= p < self.log().len() && self.log()[p] == k by {
                            let p = choose|p: int|
                                log0.len() <= p < log_head.len() && log_head[p] == k;
                            assert(self.log()[p] == k);
                        }
                        assert(!cache0.contains_key(id));
                        assert(self.log().last() == id);
                        assert forall|p: int, q: int|
                            #![trigger self.log()[p], self.log()[q]]
                            log0.len() <= p < q < self.log().len() implies self.log()[p]
                            != self.log()[q] by {
                            if q == log_head.len() {
                                assert(cache_head.contains_key(log_head[p]));
                            }
                        }
                        assert forall|k: u64| #[trigger]
                            self.cache().contains_key(k) implies cache0.contains_key(k)
                            || reachable(docs0, seedset, k) by {}
                        assert forall|p: int|
                            log0.len() <= p < self.log().len() implies visited@.contains(
                            #[trigger] self.log()[p],
                        ) && lvl[self.log()[p]] <= d0 by {
                            if p < log_head.len() {
                                assert(self.log()[p] == log_head[p]);
                                assert(lvl[log_head[p]] <= lvl[qe_before[0]]);
                            } else {
                                assert(self.log()[p] == id);
                            }
                        }
                        assert forall|p: int, q: int|
                            #![trigger lvl[self.log()[p]], lvl[self.log()[q]]]
                            log0.len() <= p <= q < self.log().len() implies lvl[self.log()[p]]
                            <= lvl[self.log()[q]] by {
                            if q >= log_head.len() {
                                assert(self.log()[q] == id);
                                if p < log_head.len() {
                                    assert(self.log()[p] == log_head[p]);
                                    assert(lvl[log_head[p]] <= lvl[qe_before[0]]);
                                }
                            } else {
                                assert(self.log()[p] == log_head[p] && self.log()[q]
                                    == log_head[q]);
                            }
                        }
                        assert forall|p: int, q: int, n: nat|
                            #![trigger self.log()[p], reach_within(docs0, seedset, self.log()[q], n)]
                            log0.len() <= p < q < self.log().len() && reach_within(
                                docs0,
                                seedset,
                                self.log()[q],
                                n,
                            ) implies reach_within(docs0, seedset, self.log()[p], n) by {
                            assert(visited@.contains(self.log()[q]));
                            assert(lvl[self.log()[q]] <= n);
                            assert(lvl[self.log()[p]] <= lvl[self.log()[q]]);
                            assert(reach_within(docs0, seedset, self.log()[p], lvl[self.log()[p]]));
                            lemma_reach_within_mono(
                                docs0,
                                seedset,
                                self.log()[p],
                                lvl[self.log()[p]],
                                n,
                            );
                        }
                    }
                    return Err(e);
                },
            };
            let ghost vs_mid = visited@;
            let ghost qe_mid = fifo_elems(queue);
            let ghost mut appended: Seq<u64> = Seq::empty();
            proof {
                assert(fifo_elems(queue) =~= qe_mid + appended);
                assert(visited@ =~= vs_mid.union(appended.to_set()));
                assert forall|v: u64| #[trigger]
                    visited@.contains(v) && !fifo_elems(queue).contains(v) && v != id
                    implies self.cache().contains_key(v) && docs0.contains_key(v) && (forall|
                    c: u64,
                | #[trigger]
                    doc_children(docs0[v]).contains(c) ==> visited@.contains(c)) by {
                    if qe_before.contains(v) {
                        let k = choose|k: int| 0 <= k < qe_before.len() && qe_before[k] == v;
                        assert(k > 0);
                        assert(qe_mid[k - 1] == qe_before[k]);
                        assert(qe_mid.contains(qe_mid[k - 1]));
                        assert(false);
                    }
                }
            }
            let mut j: usize = 0;
            while j < children.len()
                invariant
                    j <= children.len(),
                    self.wf(),
                    self.docs() == docs0,
                    docs0.contains_key(id),
                    self.cache().contains_key(id),
                    children@.to_set() == doc_children(docs0[id]),
                    fifo_elems(queue) == qe_mid + appended,
                    visited@ == vs_mid.union(appended.to_set()),
                    forall|k: int|
                        0 <= k < appended.len() ==> space.contains(#[trigger] appended[k])
                            && !vs_mid.contains(appended[k]),
                    forall|k: int| 0 <= k < j ==> visited@.contains(#[trigger] children@[k]),
                    forall|v: u64| #[trigger]
                        visited@.contains(v) ==> reachable(docs0, seedset, v),
                    forall|k: int|
                        0 <= k < fifo_elems(queue).len() ==> visited@.contains(
                            #[trigger] fifo_elems(queue)[k],
                        ),
                    forall|p: int, q: int|
                        #![trigger fifo_elems(queue)[p], fifo_elems(queue)[q]]
                        0 <= p < q < fifo_elems(queue).len() ==> fifo_elems(queue)[p] != fifo_elems(
                            queue,
                        )[q],
                    forall|v: u64| #[trigger]
                        visited@.contains(v) && !fifo_elems(queue).contains(v) && v != id
                            ==> self.cache().contains_key(v) && docs0.contains_key(v) && (forall|
                        c: u64,
                    | #[trigger]
                            doc_children(docs0[v]).contains(c) ==> visited@.contains(c)),
                    forall|k: u64| #[trigger]
                        self.cache().contains_key(k) ==> cache0.contains_key(k)
                            || visited@.contains(k),
                    visited@.subset_of(space),
                    lvl.contains_key(id) && lvl[id] == d0,
                    forall|v: u64| #[trigger] visited@.contains(v) ==> lvl.contains_key(v),
                    forall|s: u64| #[trigger] seedset.contains(s) ==> visited@.contains(s),
                    forall|i: int|
                        #![trigger lvl[qe_mid[i]]]
                        0 <= i < qe_mid.len() ==> d0 <= lvl[qe_mid[i]] && lvl[qe_mid[i]] <= d0 + 1,
                    forall|i: int, j2: int|
                        #![trigger lvl[qe_mid[i]], lvl[qe_mid[j2]]]
                        0 <= i <= j2 < qe_mid.len() ==> lvl[qe_mid[i]] <= lvl[qe_mid[j2]],
                    forall|i: int|
                        #![trigger lvl[appended[i]]]
                        0 <= i < appended.len() ==> lvl[appended[i]] == d0 + 1,
                    forall|v: u64| #[trigger]
                        visited@.contains(v) ==> reach_within(docs0, seedset, v, lvl[v]),
                    forall|v: u64, n: nat|
                        visited@.contains(v) && #[trigger] reach_within(docs0, seedset, v, n)
                            ==> lvl[v] <= n,
                    forall|p: int|
                        log0.len() <= p < self.log().len() ==> visited@.contains(
                            #[trigger] self.log()[p],
                        ) && lvl[self.log()[p]] <= d0,
                    forall|p: int, q: int|
                        #![trigger lvl[self.log()[p]], lvl[self.log()[q]]]
                        log0.len() <= p <= q < self.log().len() ==> lvl[self.log()[p]] <= lvl[
                            self.log()[q]
                        ],
                decreases children.len() - j,
            {
                let c = children[j];
                if !visited.contains(&c) {
                    proof {
                        assert(children@.to_set().contains(children@[j as int]));
                        assert(doc_children(docs0[id]).contains(c));
                        assert(child_union(docs0).contains(c));
                        assert(visited@.contains(id));
                        lemma_reachable_step(docs0, seedset, id, c);
                        lemma_reach_within_step(docs0, seedset, id, c, d0);
                        assert forall|n: nat| #[trigger]
                            reach_within(docs0, seedset, c, n) implies d0 + 1 <= n by {
                            if n < d0 + 1 {
                                lemma_frontier_crossing(docs0, seedset, visited@, c, n);
                                let (w, m, k2, u) = choose|w: u64, m: nat, k2: nat, u: u64|
                                    visited@.contains(w) && reach_within(docs0, seedset, w, m)
                                        && reach_from(docs0, w, c, k2) && m + k2 <= n && step_to(
                                        docs0,
                                        w,
                                        u,
                                    ) && !visited@.contains(u);
                                assert(lvl[w] <= m);
                                if !fifo_elems(queue).contains(w) && w != id {
                                    assert(doc_children(docs0[w]).contains(u));
                                    assert(false);
                                }
                                if w != id {
                                    let wi = choose|wi: int|
                                        0 <= wi < fifo_elems(queue).len() && fifo_elems(queue)[wi]
                                            == w;
                                    if wi < qe_mid.len() {
                                        assert(fifo_elems(queue)[wi] == qe_mid[wi]);
                                    } else {
                                        assert(fifo_elems(queue)[wi] == appended[wi
                                            - qe_mid.len()]);
                                    }
                                }
                                assert(d0 <= lvl[w]);
                                assert(k2 == 0);
                                lemma_reach_from_zero(docs0, w, c);
                                assert(false);
                            }
                        }
                        let ghost qe_now = fifo_elems(queue);
                        assert forall|p: int| 0 <= p < qe_now.len() implies qe_now[p] != c by {
                            assert(qe_now.contains(qe_now[p]));
                            assert(visited@.contains(qe_now[p]));
                        }
                    }
                    let ghost vs_at = visited@;
                    let ghost lvl_at = lvl;
                    visited.insert(c);
                    fifo_push(&mut queue, c);
                    proof {
                        appended = appended.push(c);
                        lvl = lvl.insert(c, (d0 + 1) as nat);
                        assert(fifo_elems(queue) =~= qe_mid + appended);
                        assert(appended.to_set() =~= appended.drop_last().to_set().insert(c)) by {
                            assert(appended.drop_last().push(c) =~= appended);
                            appended.drop_last().lemma_push_to_set_commute(c);
                        }
                        assert(visited@ =~= vs_mid.union(appended.to_set()));
                        assert forall|k: int|
                            0 <= k < appended.len() implies space.contains(#[trigger] appended[k])
                            && !vs_mid.contains(appended[k]) by {
                            if k == appended.len() - 1 {
                                assert(appended[k] == c);
                            }
                        }
                        assert(!vs_at.contains(c));
                        assert forall|i: int|
                            #![trigger lvl[qe_mid[i]]]
                            0 <= i < qe_mid.len() implies d0 <= lvl[qe_mid[i]] && lvl[qe_mid[i]]
                            <= d0 + 1 by {
                            assert(vs_at.contains(qe_mid[i]));
                            assert(lvl[qe_mid[i]] == lvl_at[qe_mid[i]]);
                        }
                        assert forall|i: int, j2: int|
                            #![trigger lvl[qe_mid[i]], lvl[qe_mid[j2]]]
                            0 <= i <= j2 < qe_mid.len() implies lvl[qe_mid[i]] <= lvl[qe_mid[j2]] by {
                            assert(vs_at.contains(qe_mid[i]) && vs_at.contains(qe_mid[j2]));
                            assert(lvl[qe_mid[i]] == lvl_at[qe_mid[i]]);
                            assert(lvl[qe_mid[j2]] == lvl_at[qe_mid[j2]]);
                        }
                        assert forall|i: int|
                            #![trigger lvl[appended[i]]]
                            0 <= i < appended.len() implies lvl[appended[i]] == d0 + 1 by {
                            if i < appended.len() - 1 {
                                assert(appended[i] == appended.drop_last()[i]);
                                assert(vs_at.contains(appended[i]));
                                assert(lvl[appended[i]] == lvl_at[appended[i]]);
                            } else {
                                assert(appended[i] == c);
                            }
                        }
                        assert forall|v: u64| #[trigger]
                            visited@.contains(v) implies reach_within(docs0, seedset, v, lvl[v]) by {
                            if v != c {
                                assert(vs_at.contains(v));
                                assert(lvl[v] == lvl_at[v]);
                            } else {
                                assert(reach_within(docs0, seedset, c, (d0 + 1) as nat));
                            }
                        }
                        assert forall|v: u64, n: nat|
                            visited@.contains(v) && #[trigger] reach_within(docs0, seedset, v, n)
                            implies lvl[v] <= n by {
                            if v != c {
                                assert(vs_at.contains(v));
                                assert(lvl[v] == lvl_at[v]);
                            }
                        }
                        assert forall|p: int|
                            log0.len() <= p < self.log().len() implies visited@.contains(
                            #[trigger] self.log()[p],
                        ) && lvl[self.log()[p]] <= d0 by {
                            assert(vs_at.contains(self.log()[p]));
                            assert(lvl[self.log()[p]] == lvl_at[self.log()[p]]);
                        }
                        assert forall|p: int, q: int|
                            #![trigger lvl[self.log()[p]], lvl[self.log()[q]]]
                            log0.len() <= p <= q < self.log().len() implies lvl[self.log()[p]]
                            <= lvl[self.log()[q]] by {
                            assert(vs_at.contains(self.log()[p]) && vs_at.contains(self.log()[q]));
                            assert(lvl[self.log()[p]] == lvl_at[self.log()[p]]);
                            assert(lvl[self.log()[q]] == lvl_at[self.log()[q]]);
                        }
                    }
                }
                j = j + 1;
            }
            proof {
                assert forall|v: u64| #[trigger]
                    visited@.contains(v) && !fifo_elems(queue).contains(v)
                    implies self.cache().contains_key(v) && docs0.contains_key(v) && (forall|
                    c: u64,
                | #[trigger]
                    doc_children(docs0[v]).contains(c) ==> visited@.contains(c)) by {
                    if v == id {
                        assert forall|c: u64| #[trigger]
                            doc_children(docs0[id]).contains(c) implies visited@.contains(c) by {
                            assert(children@.contains(c));
                            let k = choose|k: int| 0 <= k < children@.len() && children@[k] == c;
                            assert(visited@.contains(children@[k]));
                        }
                    }
                }
                assert forall|i: int|
                    #![trigger lvl[fifo_elems(queue)[i]]]
                    0 <= i < fifo_elems(queue).len() implies d0 <= lvl[fifo_elems(queue)[i]] && lvl[
                    fifo_elems(queue)[i]
                ] <= d0 + 1 by {
                    if i < qe_mid.len() {
                        assert(fifo_elems(queue)[i] == qe_mid[i]);
                    } else {
                        assert(fifo_elems(queue)[i] == appended[i - qe_mid.len()]);
                    }
                }
                assert forall|i: int, j2: int|
                    #![trigger lvl[fifo_elems(queue)[i]], lvl[fifo_elems(queue)[j2]]]
                    0 <= i <= j2 < fifo_elems(queue).len() implies lvl[fifo_elems(queue)[i]] <= lvl[
                    fifo_elems(queue)[j2]
                ] by {
                    if j2 < qe_mid.len() {
                        assert(fifo_elems(queue)[i] == qe_mid[i]);
                        assert(fifo_elems(queue)[j2] == qe_mid[j2]);
                    } else if i < qe_mid.len() {
                        assert(fifo_elems(queue)[i] == qe_mid[i]);
                        assert(fifo_elems(queue)[j2] == appended[j2 - qe_mid.len()]);
                    } else {
                        assert(fifo_elems(queue)[i] == appended[i - qe_mid.len()]);
                        assert(fifo_elems(queue)[j2] == appended[j2 - qe_mid.len()]);
                    }
                }
                assert forall|i: int|
                    #![trigger lvl[fifo_elems(queue)[i]]]
                    0 <= i < fifo_elems(queue).len() implies lvl[fifo_elems(queue)[i]] <= lvl[
                    fifo_elems(queue)[0]
                ] + 1 by {}
                assert forall|p: int, i: int|
                    #![trigger lvl[self.log()[p]], lvl[fifo_elems(queue)[i]]]
                    log0.len() <= p < self.log().len() && 0 <= i < fifo_elems(queue).len()
                    implies lvl[self.log()[p]] <= lvl[fifo_elems(queue)[i]] by {}
                if appended.len() == 0 {
                    assert(visited@ =~= vs_mid);
                    assert(fifo_elems(queue) =~= qe_mid);
                } else {
                    assert(appended.to_set().contains(appended[0]));
                    assert(visited@.contains(appended[0]));
                    assert(space.difference(visited@).subset_of(space.difference(vs_mid)));
                    vstd::set_lib::lemma_set_subset_finite(space, space.difference(vs_mid));
                    space.difference(visited@).lemma_subset_not_in_lt(
                        space.difference(vs_mid),
                        appended[0],
                    );
                }
            }
        }
        proof {
            assert forall|k: u64|
                reachable(docs0, seedset, k) implies self.cache().contains_key(k) by {
                assert forall|a: u64, b: u64|
                    visited@.contains(a) && #[trigger] step_to(docs0, a, b)
                    implies visited@.contains(b) by {
                    assert(!fifo_elems(queue).contains(a));
                }
                lemma_reachable_in_closed(docs0, seedset, visited@, k);
                assert(!fifo_elems(queue).contains(k));
            }
            assert forall|k: u64| #[trigger]
                self.cache().contains_key(k) implies cache0.contains_key(k) || reachable(
                docs0,
                seedset,
                k,
            ) by {}
            assert forall|p: int, q: int, n: nat|
                #![trigger self.log()[p], reach_within(docs0, seedset, self.log()[q], n)]
                log0.len() <= p < q < self.log().len() && reach_within(
                    docs0,
                    seedset,
                    self.log()[q],
                    n,
                ) implies reach_within(docs0, seedset, self.log()[p], n) by {
                assert(visited@.contains(self.log()[q]));
                assert(lvl[self.log()[q]] <= n);
                assert(lvl[self.log()[p]] <= lvl[self.log()[q]]);
                assert(reach_within(docs0, seedset, self.log()[p], lvl[self.log()[p]]));
                lemma_reach_within_mono(docs0, seedset, self.log()[p], lvl[self.log()[p]], n);
            }
        }
        Ok(())
    }
}

} // verus!
