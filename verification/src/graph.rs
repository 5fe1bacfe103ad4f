//! Reachability over the link graph that fetched documents describe.
//!
//! The remote's documents form a graph: there is an edge from `a` to `b`
//! when the document stored under `a` has a block that points at `b`. The
//! traversal's contract is stated over the closure of that relation.

use crate::doc::{doc_children, DocView};
use vstd::prelude::*;

verus! {

/// One link step: `a` names a document the remote holds and one of its
/// blocks points at `b`.
pub open spec fn step_to(docs: Map<u64, DocView>, a: u64, b: u64) -> bool {
    docs.contains_key(a) && doc_children(docs[a]).contains(b)
}

/// `p` starts at a seed and walks link steps from each entry to the next.
pub open spec fn is_link_path(docs: Map<u64, DocView>, seeds: Set<u64>, p: Seq<u64>) -> bool {
    &&& p.len() > 0
    &&& seeds.contains(p[0])
    &&& forall|i: int| 0 <= i < p.len() - 1 ==> #[trigger] step_to(docs, p[i], p[i + 1])
}

/// `id` lies in the closure of the seed set: it is a seed, or the end of a
/// chain of link steps that starts at one.
pub open spec fn reachable(docs: Map<u64, DocView>, seeds: Set<u64>, id: u64) -> bool {
    exists|p: Seq<u64>| is_link_path(docs, seeds, p) && p.last() == id
}

/// A seed is reachable, by the one-entry path.
pub proof fn lemma_reachable_seed(docs: Map<u64, DocView>, seeds: Set<u64>, a: u64)
    requires
        seeds.contains(a),
    ensures
        reachable(docs, seeds, a),
{
    let p = seq![a];
    assert(p.last() == a);
    assert(is_link_path(docs, seeds, p));
}

/// Following one link step out of a reachable node reaches its target.
pub proof fn lemma_reachable_step(docs: Map<u64, DocView>, seeds: Set<u64>, a: u64, b: u64)
    requires
        reachable(docs, seeds, a),
        step_to(docs, a, b),
    ensures
        reachable(docs, seeds, b),
{
    let p = choose|p: Seq<u64>| is_link_path(docs, seeds, p) && p.last() == a;
    let q = p.push(b);
    assert(q[0] == p[0]);
    assert forall|i: int| 0 <= i < q.len() - 1 implies #[trigger] step_to(docs, q[i], q[i + 1]) by {
        if i < p.len() - 1 {
            assert(q[i] == p[i] && q[i + 1] == p[i + 1]);
        } else {
            assert(q[i] == p[p.len() - 1] && q[i + 1] == b);
            assert(p[p.len() - 1] == p.last());
        }
    }
    assert(is_link_path(docs, seeds, q) && q.last() == b);
}

/// The closure is the least set that holds the seeds and is closed under
/// link steps: no identifier outside such a set is reachable.
pub proof fn lemma_reachable_in_closed(
    docs: Map<u64, DocView>,
    seeds: Set<u64>,
    s: Set<u64>,
    id: u64,
)
    requires
        seeds.subset_of(s),
        forall|a: u64, b: u64| s.contains(a) && #[trigger] step_to(docs, a, b) ==> s.contains(b),
        reachable(docs, seeds, id),
    ensures
        s.contains(id),
{
    let p = choose|p: Seq<u64>| is_link_path(docs, seeds, p) && p.last() == id;
    lemma_link_path_in_closed(docs, seeds, s, p);
}

/// Every entry of a link path out of the seeds stays inside a set that holds
/// the seeds and is closed under link steps.
proof fn lemma_link_path_in_closed(
    docs: Map<u64, DocView>,
    seeds: Set<u64>,
    s: Set<u64>,
    p: Seq<u64>,
)
    requires
        seeds.subset_of(s),
        forall|a: u64, b: u64| s.contains(a) && #[trigger] step_to(docs, a, b) ==> s.contains(b),
        is_link_path(docs, seeds, p),
    ensures
        s.contains(p.last()),
    decreases p.len(),
{
    if p.len() == 1 {
        assert(p.last() == p[0]);
    } else {
        let q = p.drop_last();
        assert(q[0] == p[0]);
        assert forall|i: int| 0 <= i < q.len() - 1 implies #[trigger] step_to(docs, q[i], q[i + 1]) by {
            assert(q[i] == p[i] && q[i + 1] == p[i + 1]);
        }
        lemma_link_path_in_closed(docs, seeds, s, q);
        let i0 = p.len() - 2;
        assert(q.last() == p[i0]);
        assert(step_to(docs, p[i0], p[i0 + 1]));
        assert(p.last() == p[i0 + 1]);
    }
}

/// `id` lies within `n` link steps of the seed set.
#[verifier::opaque]
pub open spec fn reach_within(docs: Map<u64, DocView>, seeds: Set<u64>, id: u64, n: nat) -> bool {
    exists|p: Seq<u64>| is_link_path(docs, seeds, p) && p.last() == id && p.len() <= n + 1
}

/// `id` lies within `n` link steps of the single node `a`.
pub open spec fn reach_from(docs: Map<u64, DocView>, a: u64, id: u64, n: nat) -> bool {
    reach_within(docs, Set::<u64>::empty().insert(a), id, n)
}

/// A step bound only loosens as it grows.
pub proof fn lemma_reach_within_mono(
    docs: Map<u64, DocView>,
    seeds: Set<u64>,
    id: u64,
    n: nat,
    m: nat,
)
    requires
        reach_within(docs, seeds, id, n),
        n <= m,
    ensures
        reach_within(docs, seeds, id, m),
{
    reveal(reach_within);
    let p = choose|p: Seq<u64>| is_link_path(docs, seeds, p) && p.last() == id && p.len() <= n + 1;
    assert(is_link_path(docs, seeds, p) && p.last() == id && p.len() <= m + 1);
}

/// A seed is within zero steps of the seed set.
pub proof fn lemma_reach_within_seed(docs: Map<u64, DocView>, seeds: Set<u64>, a: u64)
    requires
        seeds.contains(a),
    ensures
        reach_within(docs, seeds, a, 0),
{
    reveal(reach_within);
    let p = seq![a];
    assert(p.last() == a);
    assert(is_link_path(docs, seeds, p) && p.len() <= 1);
}

/// One more link step costs one more of the bound.
pub proof fn lemma_reach_within_step(
    docs: Map<u64, DocView>,
    seeds: Set<u64>,
    a: u64,
    b: u64,
    n: nat,
)
    requires
        reach_within(docs, seeds, a, n),
        step_to(docs, a, b),
    ensures
        reach_within(docs, seeds, b, (n + 1) as nat),
{
    reveal(reach_within);
    let p = choose|p: Seq<u64>| is_link_path(docs, seeds, p) && p.last() == a && p.len() <= n + 1;
    let q = p.push(b);
    assert(q[0] == p[0]);
    assert forall|i: int| 0 <= i < q.len() - 1 implies #[trigger] step_to(docs, q[i], q[i + 1]) by {
        if i < p.len() - 1 {
            assert(q[i] == p[i] && q[i + 1] == p[i + 1]);
        } else {
            assert(q[i] == p[p.len() - 1] && q[i + 1] == b);
            assert(p[p.len() - 1] == p.last());
        }
    }
    assert(is_link_path(docs, seeds, q) && q.last() == b && q.len() <= n + 2);
}

/// Within zero steps of `a` lies `a` alone.
pub proof fn lemma_reach_from_zero(docs: Map<u64, DocView>, a: u64, id: u64)
    requires
        reach_from(docs, a, id, 0),
    ensures
        id == a,
{
    reveal(reach_within);
    let s = Set::<u64>::empty().insert(a);
    let p = choose|p: Seq<u64>| is_link_path(docs, s, p) && p.last() == id && p.len() <= 1;
    assert(p.last() == p[0]);
}

/// Any path of at most `n` steps from the seeds to a node outside a set
/// `vs` that holds the seeds crosses the border somewhere: some node `w`
/// inside `vs`, within `m` of the seeds, has a link to a node outside `vs`
/// and carries the rest of the path, within `k` steps, with `m + k` inside
/// the bound.
pub proof fn lemma_frontier_crossing(
    docs: Map<u64, DocView>,
    seeds: Set<u64>,
    vs: Set<u64>,
    x: u64,
    n: nat,
)
    requires
        reach_within(docs, seeds, x, n),
        !vs.contains(x),
        seeds.subset_of(vs),
    ensures
        exists|w: u64, m: nat, k: nat, u: u64|
            vs.contains(w) && reach_within(docs, seeds, w, m) && reach_from(docs, w, x, k) && m + k
                <= n && step_to(docs, w, u) && !vs.contains(u),
    decreases n,
{
    reveal(reach_within);
    let p = choose|p: Seq<u64>| is_link_path(docs, seeds, p) && p.last() == x && p.len() <= n + 1;
    if p.len() == 1 {
        assert(p.last() == p[0]);
        assert(vs.contains(x));
    } else {
        let q = p.drop_last();
        assert(q[0] == p[0]);
        assert forall|i: int| 0 <= i < q.len() - 1 implies #[trigger] step_to(docs, q[i], q[i + 1]) by {
            assert(q[i] == p[i] && q[i + 1] == p[i + 1]);
        }
        let i0 = p.len() - 2;
        let a = p[i0];
        assert(q.last() == a);
        assert(step_to(docs, p[i0], p[i0 + 1]));
        assert(p.last() == p[i0 + 1]);
        assert(n >= 1);
        assert(is_link_path(docs, seeds, q) && q.len() <= (n - 1) as nat + 1);
        assert(reach_within(docs, seeds, a, (n - 1) as nat));
        if vs.contains(a) {
            let pa = seq![a, x];
            assert(pa[0] == a && pa.last() == x && pa.len() == 2);
            assert(Set::<u64>::empty().insert(a).contains(a));
            assert(forall|i: int|
                0 <= i < pa.len() - 1 ==> #[trigger] step_to(docs, pa[i], pa[i + 1]));
            assert(is_link_path(docs, Set::<u64>::empty().insert(a), pa));
            assert(reach_from(docs, a, x, 1));
            assert(vs.contains(a) && reach_within(docs, seeds, a, (n - 1) as nat) && reach_from(
                docs,
                a,
                x,
                1,
            ) && (n - 1) as nat + 1 <= n && step_to(docs, a, x) && !vs.contains(x));
        } else {
            lemma_frontier_crossing(docs, seeds, vs, a, (n - 1) as nat);
            let (w, m, k, u) = choose|w: u64, m: nat, k: nat, u: u64|
                vs.contains(w) && reach_within(docs, seeds, w, m) && reach_from(docs, w, a, k) && m
                    + k <= (n - 1) as nat && step_to(docs, w, u) && !vs.contains(u);
            lemma_reach_within_step(docs, Set::<u64>::empty().insert(w), a, x, k);
            assert(reach_from(docs, w, x, (k + 1) as nat));
            assert(vs.contains(w) && reach_within(docs, seeds, w, m) && reach_from(
                docs,
                w,
                x,
                (k + 1) as nat,
            ) && m + (k + 1) as nat <= n && step_to(docs, w, u) && !vs.contains(u));
        }
    }
}

/// Every identifier some document of the table links to.
pub open spec fn child_union(docs: Map<u64, DocView>) -> Set<u64> {
    Set::new(
        |b: u64| exists|a: u64| #[trigger] docs.contains_key(a) && doc_children(docs[a]).contains(b),
    )
}

/// A finite table of documents links to finitely many identifiers.
pub proof fn lemma_child_union_finite(docs: Map<u64, DocView>)
    requires
        docs.dom().finite(),
    ensures
        child_union(docs).finite(),
    decreases docs.dom().len(),
{
    broadcast use vstd::seq_lib::seq_to_set_is_finite;

    if docs.dom().len() == 0 {
        assert(docs.dom() =~= Set::<u64>::empty());
        assert forall|b: u64| !child_union(docs).contains(b) by {
            if child_union(docs).contains(b) {
                let a = choose|a: u64|
                    docs.contains_key(a) && doc_children(docs[a]).contains(b);
                assert(docs.dom().contains(a));
            }
        }
        assert(child_union(docs) =~= Set::<u64>::empty());
    } else {
        let a0 = docs.dom().choose();
        assert(docs.dom().contains(a0)) by {
            if docs.dom().is_empty() {
                assert(docs.dom() =~= Set::<u64>::empty());
            }
        }
        let rest = docs.remove(a0);
        assert(rest.dom() =~= docs.dom().remove(a0));
        lemma_child_union_finite(rest);
        assert forall|b: u64| child_union(docs).contains(b) implies child_union(rest).union(
            doc_children(docs[a0]),
        ).contains(b) by {
            let a = choose|a: u64| docs.contains_key(a) && doc_children(docs[a]).contains(b);
            if a != a0 {
                assert(rest.contains_key(a) && doc_children(rest[a]).contains(b));
            }
        }
        assert forall|b: u64| child_union(rest).union(doc_children(docs[a0])).contains(
            b,
        ) implies child_union(docs).contains(b) by {
            if child_union(rest).contains(b) {
                let a = choose|a: u64| rest.contains_key(a) && doc_children(rest[a]).contains(b);
                assert(docs.contains_key(a) && doc_children(docs[a]).contains(b));
            } else {
                assert(docs.contains_key(a0) && doc_children(docs[a0]).contains(b));
            }
        }
        assert(child_union(docs) =~= child_union(rest).union(doc_children(docs[a0])));
        assert(doc_children(docs[a0]).finite());
    }
}

} // verus!
