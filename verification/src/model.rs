//! The mathematical model of the scheduler.
//!
//! [`DagView`] abstracts the whole scheduler state: the graph as a map from
//! identifier to [`NodeView`], the ready queue as a sequence of identifiers
//! in FIFO order, the pending-transaction snapshot, and the per-tick
//! concurrency bound.  The transition functions below say exactly what each
//! executable operation does to that state; the invariants and the laws
//! proved about them live in [`crate::laws`].

use vstd::prelude::*;
use crate::graph::{NodeView, TxView};

verus! {

/// The model of the whole scheduler state.
pub struct DagView {
    pub nodes: Map<Seq<char>, NodeView>,
    pub queue: Seq<Seq<char>>,
    pub pending: Seq<TxView>,
    pub max_parallel: nat,
}

/// Whether `d` is present in the graph and processed.
pub open spec fn dep_done(g: Map<Seq<char>, NodeView>, d: Seq<char>) -> bool {
    g.dom().contains(d) && g[d].processed
}

/// Whether `id` is present and every one of its dependencies is present and
/// processed.  A node whose dependency list names an absent identifier is
/// never satisfied.
pub open spec fn deps_satisfied(g: Map<Seq<char>, NodeView>, id: Seq<char>) -> bool {
    g.dom().contains(id)
    && forall |i: int| 0 <= i < g[id].deps.len() ==> dep_done(g, #[trigger] g[id].deps[i])
}

/// The identifiers of the processed nodes.
pub open spec fn processed_ids(g: Map<Seq<char>, NodeView>) -> Set<Seq<char>> {
    g.dom().filter(|k: Seq<char>| g[k].processed)
}

/// The node created for a freshly inserted transaction: its dependency list
/// copied from the transaction, no dependents, not processed.
pub open spec fn fresh_view(t: TxView) -> NodeView {
    NodeView {
        tx: t,
        deps: t.dependencies,
        dependents: Seq::empty(),
        processed: false,
    }
}

/// Appends `id` to the dependent list of every identifier of `ds` that is
/// present in the graph, front to back; an absent dependency records
/// nothing (the lost-link behaviour).
pub open spec fn record_links(
    g: Map<Seq<char>, NodeView>,
    ds: Seq<Seq<char>>,
    id: Seq<char>,
) -> Map<Seq<char>, NodeView>
    decreases ds.len(),
{
    if ds.len() == 0 {
        g
    } else {
        let d = ds[0];
        let g1 = if g.dom().contains(d) {
            g.insert(d, NodeView { dependents: g[d].dependents.push(id), ..g[d] })
        } else {
            g
        };
        record_links(g1, ds.skip(1), id)
    }
}

/// Ingestion: store a fresh node under the transaction's identifier
/// (overwriting any node already there), record the dependent link on every
/// dependency that is present, and enqueue the identifier if the
/// transaction declares no dependencies.
pub open spec fn add_step(v: DagView, t: TxView) -> DagView {
    let g1 = v.nodes.insert(t.id, fresh_view(t));
    let g2 = record_links(g1, t.dependencies, t.id);
    let q1 = if t.dependencies.len() == 0 { v.queue.push(t.id) } else { v.queue };
    DagView { nodes: g2, queue: q1, ..v }
}

/// Marks `id` processed if it is present; otherwise the graph is unchanged.
pub open spec fn mark_one(
    g: Map<Seq<char>, NodeView>,
    id: Seq<char>,
) -> Map<Seq<char>, NodeView> {
    if g.dom().contains(id) {
        g.insert(id, NodeView { processed: true, ..g[id] })
    } else {
        g
    }
}

/// Whether a dependent is admitted to the ready queue: present, not yet
/// processed, all of its dependencies processed, and not already queued.
pub open spec fn admit_cond(
    g: Map<Seq<char>, NodeView>,
    q: Seq<Seq<char>>,
    d: Seq<char>,
) -> bool {
    g.dom().contains(d) && !g[d].processed && deps_satisfied(g, d) && !q.contains(d)
}

/// Walks a dependent list front to back and admits each identifier that
/// satisfies [`admit_cond`] against the queue as grown so far.
pub open spec fn enqueue_dependents(
    g: Map<Seq<char>, NodeView>,
    q: Seq<Seq<char>>,
    dl: Seq<Seq<char>>,
) -> Seq<Seq<char>>
    decreases dl.len(),
{
    if dl.len() == 0 {
        q
    } else {
        let q1 = if admit_cond(g, q, dl[0]) { q.push(dl[0]) } else { q };
        enqueue_dependents(g, q1, dl.skip(1))
    }
}

/// Completion propagation for one processed identifier: its recorded
/// dependents are re-evaluated and the now-satisfied ones admitted.
pub open spec fn propagate_from(
    g: Map<Seq<char>, NodeView>,
    q: Seq<Seq<char>>,
    id: Seq<char>,
) -> Seq<Seq<char>> {
    if g.dom().contains(id) {
        enqueue_dependents(g, q, g[id].dependents)
    } else {
        q
    }
}

/// Folds a batch of per-transaction outcomes over the state, front to back:
/// a success is marked processed and its completion propagated; a failure
/// changes nothing (the node stays unprocessed forever).
pub open spec fn run_outcomes(
    g: Map<Seq<char>, NodeView>,
    q: Seq<Seq<char>>,
    rs: Seq<(Seq<char>, bool)>,
) -> (Map<Seq<char>, NodeView>, Seq<Seq<char>>)
    decreases rs.len(),
{
    if rs.len() == 0 {
        (g, q)
    } else if rs[0].1 {
        let g1 = mark_one(g, rs[0].0);
        let q1 = propagate_from(g1, q, rs[0].0);
        run_outcomes(g1, q1, rs.skip(1))
    } else {
        run_outcomes(g, q, rs.skip(1))
    }
}

/// A batch in which every transaction succeeded.
pub open spec fn all_ok(b: Seq<Seq<char>>) -> Seq<(Seq<char>, bool)> {
    b.map_values(|id: Seq<char>| (id, true))
}

/// How many identifiers one tick dispatches: the whole queue, bounded by
/// the concurrency limit.
pub open spec fn batch_len(v: DagView) -> nat {
    if v.queue.len() <= v.max_parallel { v.queue.len() } else { v.max_parallel }
}

/// One tick with the built-in always-succeeding operation: dispatch the
/// front of the queue up to the bound, mark every dispatched transaction
/// processed, and propagate each completion in dispatch order.
pub open spec fn tick_step(v: DagView) -> DagView {
    let b = batch_len(v) as int;
    let batch = v.queue.take(b);
    let rest = v.queue.skip(b);
    let gq = run_outcomes(v.nodes, rest, all_ok(batch));
    DagView { nodes: gq.0, queue: gq.1, ..v }
}

/// `n` ticks in a row.
pub open spec fn run_ticks(v: DagView, n: nat) -> DagView
    decreases n,
{
    if n == 0 { v } else { run_ticks(tick_step(v), (n - 1) as nat) }
}

/// Structural well-formedness: finitely many nodes, and every queued
/// identifier names a node.
pub open spec fn wf_pair(g: Map<Seq<char>, NodeView>, q: Seq<Seq<char>>) -> bool {
    g.dom().finite()
    && forall |i: int| 0 <= i < q.len() ==> g.dom().contains(#[trigger] q[i])
}

/// Structural well-formedness of a whole state.
pub open spec fn wf_state(v: DagView) -> bool {
    wf_pair(v.nodes, v.queue)
}

/// No identifier is queued twice.
pub open spec fn queue_distinct(q: Seq<Seq<char>>) -> bool {
    forall |i: int, j: int| 0 <= i < j < q.len() ==> q[i] != q[j]
}

/// Every queued node is still unprocessed.
pub open spec fn queue_unprocessed(g: Map<Seq<char>, NodeView>, q: Seq<Seq<char>>) -> bool {
    forall |i: int| 0 <= i < q.len() ==> !g[#[trigger] q[i]].processed
}

/// Every queued node has all of its dependencies processed: dispatch is
/// permitted only once the prerequisites are done.
pub open spec fn queue_satisfied(g: Map<Seq<char>, NodeView>, q: Seq<Seq<char>>) -> bool {
    forall |i: int| 0 <= i < q.len() ==> deps_satisfied(g, #[trigger] q[i])
}

/// Every recorded dependent link points back: if `k` stands in the
/// dependent list of `d`, then `k` is a node and names `d` among its
/// dependencies.
pub open spec fn dependents_sound(g: Map<Seq<char>, NodeView>) -> bool {
    forall |d: Seq<char>, i: int|
        g.dom().contains(d) && 0 <= i < g[d].dependents.len()
        ==> g.dom().contains(#[trigger] g[d].dependents[i])
            && g[g[d].dependents[i]].deps.contains(d)
}

/// Every processed node has all of its dependencies processed.
pub open spec fn processed_satisfied(g: Map<Seq<char>, NodeView>) -> bool {
    forall |k: Seq<char>|
        #[trigger] g.dom().contains(k) && g[k].processed
        ==> deps_satisfied(g, k)
}

/// Whether every dependency of `k` is present and carries the back link to
/// `k` in its dependent list.
pub open spec fn linked(g: Map<Seq<char>, NodeView>, k: Seq<char>) -> bool {
    g.dom().contains(k)
    && forall |i: int| 0 <= i < g[k].deps.len()
        ==> g.dom().contains(#[trigger] g[k].deps[i]) && g[g[k].deps[i]].dependents.contains(k)
}

/// Every unprocessed node whose links are intact and whose dependencies are
/// all processed is in the ready queue.
pub open spec fn ready_queued(g: Map<Seq<char>, NodeView>, q: Seq<Seq<char>>) -> bool {
    forall |k: Seq<char>|
        #[trigger] g.dom().contains(k)
        && !g[k].processed
        && deps_satisfied(g, k)
        && linked(g, k)
        ==> q.contains(k)
}

/// The scheduling invariant: everything the safety and liveness laws rest
/// on.  It holds of a fresh scheduler and is preserved by every tick; it is
/// preserved by ingestion under the conditions stated in [`crate::laws`].
pub open spec fn sched_inv(v: DagView) -> bool {
    queue_distinct(v.queue)
    && queue_unprocessed(v.nodes, v.queue)
    && queue_satisfied(v.nodes, v.queue)
    && dependents_sound(v.nodes)
    && processed_satisfied(v.nodes)
    && ready_queued(v.nodes, v.queue)
}

/// Every node's links are intact: the state reached when every transaction
/// was inserted after all of its dependencies.
pub open spec fn fully_linked(g: Map<Seq<char>, NodeView>) -> bool {
    forall |k: Seq<char>| #[trigger] g.dom().contains(k) ==> linked(g, k)
}

/// `rank` witnesses acyclicity: it covers every node and strictly decreases
/// along present dependency edges.
pub open spec fn ranked(g: Map<Seq<char>, NodeView>, rank: Map<Seq<char>, nat>) -> bool {
    (forall |k: Seq<char>| #[trigger] g.dom().contains(k) ==> rank.dom().contains(k))
    && forall |k: Seq<char>, i: int|
        g.dom().contains(k) && 0 <= i < g[k].deps.len()
        && g.dom().contains(#[trigger] g[k].deps[i])
        ==> rank[g[k].deps[i]] < rank[k]
}

/// No node is processed yet: the state during an ingestion phase that no
/// tick has interrupted.
pub open spec fn all_unprocessed(g: Map<Seq<char>, NodeView>) -> bool {
    forall |k: Seq<char>| #[trigger] g.dom().contains(k) ==> !g[k].processed
}

/// Every node is processed.
pub open spec fn all_processed(g: Map<Seq<char>, NodeView>) -> bool {
    forall |k: Seq<char>| #[trigger] g.dom().contains(k) ==> g[k].processed
}

/// The second graph is the first with some nodes marked processed: same
/// nodes, same links, and the processed flag only ever turns on.
pub open spec fn evolved(g0: Map<Seq<char>, NodeView>, g: Map<Seq<char>, NodeView>) -> bool {
    g.dom() == g0.dom()
    && forall |k: Seq<char>| #[trigger] g0.dom().contains(k) ==> {
        &&& g[k].deps == g0[k].deps
        &&& g[k].dependents == g0[k].dependents
        &&& g[k].tx == g0[k].tx
        &&& (g0[k].processed ==> g[k].processed)
    }
}

/// The processed share of the graph as a whole percentage, zero on an empty
/// graph.
pub open spec fn efficiency_pct(processed: nat, total: nat) -> nat {
    if total > 0 { processed * 100 / total } else { 0 }
}

/// The processed identifiers form a finite subset of the node identifiers.
pub proof fn lemma_processed_ids_bound(g: Map<Seq<char>, NodeView>)
    requires
        g.dom().finite(),
    ensures
        processed_ids(g).finite(),
        processed_ids(g).len() <= g.dom().len(),
        processed_ids(g).subset_of(g.dom()),
{
    vstd::set_lib::lemma_len_subset(processed_ids(g), g.dom());
}

/// How storing a node changes the processed set: the key joins it when the
/// stored node is processed and leaves it when not.
pub proof fn lemma_processed_ids_insert(g: Map<Seq<char>, NodeView>, k: Seq<char>, nv: NodeView)
    ensures
        nv.processed ==> processed_ids(g.insert(k, nv)) == processed_ids(g).insert(k),
        !nv.processed ==> processed_ids(g.insert(k, nv)) == processed_ids(g).remove(k),
{
    if nv.processed {
        assert(processed_ids(g.insert(k, nv)) =~= processed_ids(g).insert(k));
    } else {
        assert(processed_ids(g.insert(k, nv)) =~= processed_ids(g).remove(k));
    }
}

/// Storing a node under a present key with the processed flag unchanged
/// leaves the node count and the processed set unchanged.
pub proof fn lemma_reinsert_same_processed(g: Map<Seq<char>, NodeView>, k: Seq<char>, nv: NodeView)
    requires
        g.dom().contains(k),
        nv.processed == g[k].processed,
    ensures
        g.insert(k, nv).dom() == g.dom(),
        processed_ids(g.insert(k, nv)) == processed_ids(g),
{
    assert(g.insert(k, nv).dom() =~= g.dom());
    assert(processed_ids(g.insert(k, nv)) =~= processed_ids(g));
}

/// A graph in which as many nodes are processed as exist is fully
/// processed.
pub proof fn lemma_full_count_means_all(g: Map<Seq<char>, NodeView>)
    requires
        g.dom().finite(),
        processed_ids(g).len() == g.dom().len(),
    ensures
        all_processed(g),
        processed_ids(g) == g.dom(),
{
    lemma_processed_ids_bound(g);
    assert forall |k: Seq<char>| #[trigger] g.dom().contains(k) implies g[k].processed by {
        if !g[k].processed {
            assert(!processed_ids(g).contains(k));
            assert(processed_ids(g).insert(k).subset_of(g.dom()));
            vstd::set_lib::lemma_len_subset(processed_ids(g).insert(k), g.dom());
            assert(processed_ids(g).insert(k).len() == processed_ids(g).len() + 1);
        }
    }
    assert(processed_ids(g) =~= g.dom());
}

/// Recording dependent links changes neither the set of nodes nor any
/// node's dependency list or processed flag.
pub proof fn lemma_record_links_frame(
    g: Map<Seq<char>, NodeView>,
    ds: Seq<Seq<char>>,
    id: Seq<char>,
)
    ensures
        record_links(g, ds, id).dom() == g.dom(),
        forall |k: Seq<char>| #[trigger] g.dom().contains(k) ==> {
            &&& record_links(g, ds, id)[k].deps == g[k].deps
            &&& record_links(g, ds, id)[k].processed == g[k].processed
            &&& record_links(g, ds, id)[k].tx == g[k].tx
        },
        processed_ids(record_links(g, ds, id)) == processed_ids(g),
    decreases ds.len(),
{
    if ds.len() == 0 {
    } else {
        let d = ds[0];
        let g1 = if g.dom().contains(d) {
            g.insert(d, NodeView { dependents: g[d].dependents.push(id), ..g[d] })
        } else {
            g
        };
        assert(g1.dom() =~= g.dom());
        lemma_record_links_frame(g1, ds.skip(1), id);
        assert(processed_ids(g1) =~= processed_ids(g));
    }
}

} // verus!
