//! The laws of the scheduler, proved over the model of [`crate::model`]:
//! the scheduling invariant is preserved by ingestion and by every tick,
//! dispatch never admits a transaction before its dependencies are
//! processed, a well-formed acyclic graph drains completely, and a
//! transaction whose dependency link was lost stays unprocessed forever.

use vstd::prelude::*;
use crate::graph::{NodeView, TxView};
use crate::model::{
    DagView, add_step, admit_cond, all_ok, all_processed, all_unprocessed, batch_len, dep_done,
    dependents_sound, deps_satisfied, enqueue_dependents, evolved, fresh_view, fully_linked,
    linked, mark_one, processed_ids, propagate_from, queue_distinct, queue_satisfied,
    processed_satisfied, queue_unprocessed, ranked, ready_queued, record_links, run_outcomes, run_ticks, sched_inv,
    tick_step, wf_pair, wf_state,
};
use crate::model::{lemma_processed_ids_bound, lemma_record_links_frame};

verus! {

/// An element of a sequence is its head or an element of its tail.
proof fn lemma_skip1_contains<T>(s: Seq<T>, x: T)
    requires
        s.len() > 0,
    ensures
        s.contains(x) <==> (s[0] == x || s.skip(1).contains(x)),
{
    if s.contains(x) {
        let i = choose |i: int| 0 <= i < s.len() && s[i] == x;
        if i > 0 {
            assert(s.skip(1)[i - 1] == x);
        }
    }
    if s.skip(1).contains(x) {
        let i = choose |i: int| 0 <= i < s.skip(1).len() && s.skip(1)[i] == x;
        assert(s[i + 1] == x);
    }
}

/// Satisfaction survives marking: once all dependencies of `k` are done,
/// they stay done as more nodes are processed.
proof fn lemma_deps_satisfied_evolved(
    g0: Map<Seq<char>, NodeView>,
    g: Map<Seq<char>, NodeView>,
    k: Seq<char>,
)
    requires
        evolved(g0, g),
        deps_satisfied(g0, k),
    ensures
        deps_satisfied(g, k),
{
    assert forall |i: int| 0 <= i < g[k].deps.len() implies dep_done(g, #[trigger] g[k].deps[i]) by {
        assert(g[k].deps == g0[k].deps);
        assert(dep_done(g0, g0[k].deps[i]));
    }
}

/// `evolved` is transitive.
proof fn lemma_evolved_trans(
    g0: Map<Seq<char>, NodeView>,
    g1: Map<Seq<char>, NodeView>,
    g2: Map<Seq<char>, NodeView>,
)
    requires
        evolved(g0, g1),
        evolved(g1, g2),
    ensures
        evolved(g0, g2),
{
}

/// Marking a node evolves the graph: nothing changes but one processed
/// flag, which only turns on.
proof fn lemma_mark_one_evolved(g: Map<Seq<char>, NodeView>, id: Seq<char>)
    ensures
        evolved(g, mark_one(g, id)),
        mark_one(g, id).dom() == g.dom(),
        forall |k: Seq<char>| g.dom().contains(k) ==> (#[trigger] mark_one(g, id)[k].processed
            <==> (g[k].processed || k == id)),
{
    if g.dom().contains(id) {
        assert(mark_one(g, id).dom() =~= g.dom());
    }
}

/// Back-link soundness and full linkage only mention the nodes and their
/// link lists, so they carry across `evolved`.
proof fn lemma_links_evolved(g0: Map<Seq<char>, NodeView>, g: Map<Seq<char>, NodeView>)
    requires
        evolved(g0, g),
    ensures
        dependents_sound(g0) ==> dependents_sound(g),
        forall |k: Seq<char>| linked(g0, k) ==> #[trigger] linked(g, k),
        forall |k: Seq<char>| #[trigger] linked(g, k) ==> linked(g0, k),
        fully_linked(g0) ==> fully_linked(g),
        forall |rank: Map<Seq<char>, nat>| ranked(g0, rank) ==> #[trigger] ranked(g, rank),
{
    if dependents_sound(g0) {
        assert forall |d: Seq<char>, i: int|
            g.dom().contains(d) && 0 <= i < g[d].dependents.len()
            implies g.dom().contains(#[trigger] g[d].dependents[i])
                && g[g[d].dependents[i]].deps.contains(d) by {
            assert(g[d].dependents == g0[d].dependents);
            assert(g0.dom().contains(g0[d].dependents[i]));
            assert(g0[g0[d].dependents[i]].deps.contains(d));
        }
    }
    assert forall |k: Seq<char>| linked(g0, k) implies #[trigger] linked(g, k) by {
        assert forall |i: int| 0 <= i < g[k].deps.len()
            implies g.dom().contains(#[trigger] g[k].deps[i])
                && g[g[k].deps[i]].dependents.contains(k) by {
            assert(g[k].deps == g0[k].deps);
            assert(g0.dom().contains(g0[k].deps[i]));
            assert(g0[g0[k].deps[i]].dependents.contains(k));
        }
    }
    assert forall |k: Seq<char>| #[trigger] linked(g, k) implies linked(g0, k) by {
        assert forall |i: int| 0 <= i < g0[k].deps.len()
            implies g0.dom().contains(#[trigger] g0[k].deps[i])
                && g0[g0[k].deps[i]].dependents.contains(k) by {
            assert(g[k].deps == g0[k].deps);
            assert(g.dom().contains(g[k].deps[i]));
            assert(g[g[k].deps[i]].dependents.contains(k));
        }
    }
    assert forall |rank: Map<Seq<char>, nat>| ranked(g0, rank) implies #[trigger] ranked(g, rank) by {
        assert forall |k: Seq<char>, i: int|
            g.dom().contains(k) && 0 <= i < g[k].deps.len()
            && g.dom().contains(#[trigger] g[k].deps[i])
            implies rank[g[k].deps[i]] < rank[k] by {
            assert(g[k].deps == g0[k].deps);
        }
    }
}

/// What admitting the dependents of one completed node does to the queue:
/// the queue only grows at the back, every admitted identifier is an
/// unprocessed, fully satisfied member of the dependent list, nothing else
/// is admitted, distinctness is preserved, and every dependent that meets
/// the admission condition ends up queued.
proof fn lemma_enqueue_props(
    g: Map<Seq<char>, NodeView>,
    q: Seq<Seq<char>>,
    dl: Seq<Seq<char>>,
)
    ensures
        ({ let q2 = enqueue_dependents(g, q, dl);
        &&& q.len() <= q2.len()
        &&& (forall |i: int| 0 <= i < q.len() ==> q2[i] == q[i])
        &&& (forall |i: int| q.len() <= i < q2.len() ==> {
            &&& g.dom().contains(#[trigger] q2[i])
            &&& !g[q2[i]].processed
            &&& deps_satisfied(g, q2[i])
            &&& dl.contains(q2[i])
        })
        &&& (forall |x: Seq<char>| #[trigger] q2.contains(x) ==> q.contains(x) || dl.contains(x))
        &&& (queue_distinct(q) ==> queue_distinct(q2))
        &&& (forall |x: Seq<char>| #[trigger] dl.contains(x) && g.dom().contains(x)
                && !g[x].processed && deps_satisfied(g, x) ==> q2.contains(x))
        }),
    decreases dl.len(),
{
    let q2 = enqueue_dependents(g, q, dl);
    if dl.len() == 0 {
        assert forall |x: Seq<char>| #[trigger] q2.contains(x) implies q.contains(x) || dl.contains(x) by {}
    } else {
        let d = dl[0];
        let q1 = if admit_cond(g, q, d) { q.push(d) } else { q };
        lemma_enqueue_props(g, q1, dl.skip(1));
        assert(dl.contains(d));
        if admit_cond(g, q, d) {
            assert(q1[q.len() as int] == d);
            assert forall |i: int| 0 <= i < q.len() implies q1[i] == q[i] by {}
            if queue_distinct(q) {
                assert forall |i: int, j: int| 0 <= i < j < q1.len() implies q1[i] != q1[j] by {
                    if j == q.len() as int {
                        assert(q1[j] == d);
                        assert(!q.contains(d));
                        assert(q.contains(q[i]));
                    }
                }
            }
        }
        // an element of the grown queue came from q or from the list
        assert forall |x: Seq<char>| #[trigger] q2.contains(x) implies q.contains(x) || dl.contains(x) by {
            if !q.contains(x) {
                assert(q1.contains(x) || dl.skip(1).contains(x) || x == d || dl.contains(x));
                if q1.contains(x) {
                    let i = choose |i: int| 0 <= i < q1.len() && q1[i] == x;
                    if i < q.len() {
                        assert(q[i] == x);
                    } else {
                        assert(x == d);
                    }
                }
                lemma_skip1_contains(dl, x);
            }
        }
        // everything that meets the admission condition is queued
        assert forall |x: Seq<char>| #[trigger] dl.contains(x) && g.dom().contains(x)
            && !g[x].processed && deps_satisfied(g, x) implies q2.contains(x) by {
            if x == d {
                if admit_cond(g, q, d) {
                    assert(q1.contains(d));
                    let i = choose |i: int| 0 <= i < q1.len() && q1[i] == d;
                    assert(q2[i] == d);
                } else {
                    assert(q.contains(d));
                    let i = choose |i: int| 0 <= i < q.len() && q[i] == d;
                    assert(q1[i] == d);
                    assert(q2[i] == d);
                }
            } else {
                lemma_skip1_contains(dl, x);
                assert(dl.skip(1).contains(x));
            }
        }
        // elements of q survive into q2
        assert forall |i: int| 0 <= i < q.len() implies q2[i] == q[i] by {
            assert(q1[i] == q[i]);
        }
        // new elements satisfy the admission facts
        assert forall |i: int| q.len() <= i < q2.len() implies {
            &&& g.dom().contains(#[trigger] q2[i])
            &&& !g[q2[i]].processed
            &&& deps_satisfied(g, q2[i])
            &&& dl.contains(q2[i])
        } by {
            if i < q1.len() {
                assert(admit_cond(g, q, d) && q2[i] == d);
            } else {
                assert(dl.skip(1).contains(q2[i]));
                lemma_skip1_contains(dl, q2[i]);
            }
        }
    }
}

/// The safety half of the scheduling invariant, over a graph and a queue:
/// what is preserved by every batch of outcomes, failures included.
pub open spec fn safety_inv(g: Map<Seq<char>, NodeView>, q: Seq<Seq<char>>) -> bool {
    wf_pair(g, q)
    && queue_distinct(q)
    && queue_unprocessed(g, q)
    && queue_satisfied(g, q)
    && dependents_sound(g)
    && processed_satisfied(g)
}

/// What holds of a dispatched batch while its outcomes are applied: each
/// identifier was popped from the queue of the pre-dispatch graph `g0`, was
/// unprocessed, had all its dependencies processed when dispatch was
/// permitted, is not in the remaining queue, and no identifier was
/// dispatched twice.
pub open spec fn batch_ok(
    g0: Map<Seq<char>, NodeView>,
    g: Map<Seq<char>, NodeView>,
    q: Seq<Seq<char>>,
    rs: Seq<(Seq<char>, bool)>,
) -> bool {
    (forall |i: int| 0 <= i < rs.len() ==> {
        &&& g0.dom().contains((#[trigger] rs[i]).0)
        &&& !g[rs[i].0].processed
        &&& deps_satisfied(g0, rs[i].0)
        &&& !q.contains(rs[i].0)
    })
    && (forall |i: int, j: int| 0 <= i < j < rs.len() ==> rs[i].0 != rs[j].0)
}

/// The liveness half, mid-batch: every unprocessed, satisfied, linked node
/// is either queued or about to be marked by a success still in the batch.
pub open spec fn ready_mid(
    g: Map<Seq<char>, NodeView>,
    q: Seq<Seq<char>>,
    rs: Seq<(Seq<char>, bool)>,
) -> bool {
    forall |k: Seq<char>|
        #[trigger] g.dom().contains(k)
        && !g[k].processed
        && deps_satisfied(g, k)
        && linked(g, k)
        ==> q.contains(k) || rs.contains((k, true))
}

/// One successful outcome, applied: the invariants move one step.
proof fn lemma_step_ok(
    g0: Map<Seq<char>, NodeView>,
    g: Map<Seq<char>, NodeView>,
    q: Seq<Seq<char>>,
    rs: Seq<(Seq<char>, bool)>,
)
    requires
        evolved(g0, g),
        safety_inv(g, q),
        batch_ok(g0, g, q, rs),
        rs.len() > 0,
        rs[0].1,
    ensures
        ({ let x = rs[0].0;
           let g1 = mark_one(g, x);
           let q1 = propagate_from(g1, q, x);
        &&& evolved(g0, g1)
        &&& evolved(g, g1)
        &&& safety_inv(g1, q1)
        &&& batch_ok(g0, g1, q1, rs.skip(1))
        &&& (forall |k: Seq<char>| g.dom().contains(k)
                ==> ((#[trigger] g1[k].processed) <==> (g[k].processed || k == x)))
        &&& q.len() <= q1.len()
        &&& (forall |i: int| 0 <= i < q.len() ==> q1[i] == q[i])
        &&& (forall |y: Seq<char>| #[trigger] q1.contains(y)
                ==> q.contains(y) || g[x].dependents.contains(y))
        &&& (forall |k: Seq<char>| #[trigger] g[x].dependents.contains(k)
                && g1.dom().contains(k) && !g1[k].processed && deps_satisfied(g1, k)
                ==> q1.contains(k))
        }),
{
    let x = rs[0].0;
    let g1 = mark_one(g, x);
    let q1 = propagate_from(g1, q, x);
    assert(g.dom().contains(x));
    lemma_mark_one_evolved(g, x);
    lemma_evolved_trans(g0, g, g1);
    lemma_links_evolved(g, g1);
    let dl = g1[x].dependents;
    assert(dl == g[x].dependents);
    assert(q1 == enqueue_dependents(g1, q, dl));
    lemma_enqueue_props(g1, q, dl);

    // the marked node and every already-processed node stay satisfied
    assert forall |k: Seq<char>|
        #[trigger] g1.dom().contains(k) && g1[k].processed
        implies deps_satisfied(g1, k) by {
        if g[k].processed {
            lemma_deps_satisfied_evolved(g, g1, k);
        } else {
            assert(k == x);
            lemma_deps_satisfied_evolved(g0, g1, x);
        }
    }

    // remaining queue entries are unprocessed (none of them is x) and satisfied
    assert forall |i: int| 0 <= i < q1.len() implies !g1[#[trigger] q1[i]].processed by {
        if i < q.len() {
            assert(q1[i] == q[i]);
            assert(q.contains(q[i]));
            assert(q[i] != x);
        }
    }
    assert forall |i: int| 0 <= i < q1.len() implies deps_satisfied(g1, #[trigger] q1[i]) by {
        if i < q.len() {
            assert(q1[i] == q[i]);
            lemma_deps_satisfied_evolved(g, g1, q[i]);
        }
    }
    assert forall |i: int| 0 <= i < q1.len() implies g1.dom().contains(#[trigger] q1[i]) by {
        if i < q.len() {
            assert(q1[i] == q[i]);
        }
    }

    // the batch that is still to run stays disjoint from the queue
    assert forall |i: int| 0 <= i < rs.skip(1).len() implies {
        &&& g0.dom().contains((#[trigger] rs.skip(1)[i]).0)
        &&& !g1[rs.skip(1)[i].0].processed
        &&& deps_satisfied(g0, rs.skip(1)[i].0)
        &&& !q1.contains(rs.skip(1)[i].0)
    } by {
        assert(rs.skip(1)[i] == rs[i + 1]);
        let y = rs[i + 1].0;
        assert(y != x);
        if q1.contains(y) {
            assert(q.contains(y) || dl.contains(y));
            assert(dl.contains(y));
            let j = choose |j: int| 0 <= j < g[x].dependents.len() && g[x].dependents[j] == y;
            assert(g[y].deps.contains(x));
            assert(g0[y].deps == g[y].deps);
            let ix = choose |ix: int| 0 <= ix < g0[y].deps.len() && g0[y].deps[ix] == x;
            assert(dep_done(g0, g0[y].deps[ix]));
            assert(g0[x].processed);
            assert(g[x].processed);
        }
    }
    assert forall |i: int, j: int| 0 <= i < j < rs.skip(1).len()
        implies rs.skip(1)[i].0 != rs.skip(1)[j].0 by {
        assert(rs.skip(1)[i] == rs[i + 1]);
        assert(rs.skip(1)[j] == rs[j + 1]);
    }
}

/// Applying any batch of outcomes preserves the safety invariant, and a
/// node ends up processed exactly when it was already processed or a
/// success in the batch named it.
pub proof fn lemma_run_safety(
    g0: Map<Seq<char>, NodeView>,
    g: Map<Seq<char>, NodeView>,
    q: Seq<Seq<char>>,
    rs: Seq<(Seq<char>, bool)>,
)
    requires
        evolved(g0, g),
        safety_inv(g, q),
        batch_ok(g0, g, q, rs),
    ensures
        ({ let gq = run_outcomes(g, q, rs);
        &&& evolved(g, gq.0)
        &&& evolved(g0, gq.0)
        &&& safety_inv(gq.0, gq.1)
        &&& (forall |k: Seq<char>| g.dom().contains(k)
                ==> ((#[trigger] gq.0[k].processed)
                    <==> (g[k].processed || rs.contains((k, true)))))
        }),
    decreases rs.len(),
{
    let gq = run_outcomes(g, q, rs);
    if rs.len() == 0 {
        assert forall |k: Seq<char>| g.dom().contains(k)
            implies ((#[trigger] gq.0[k].processed)
                <==> (g[k].processed || rs.contains((k, true)))) by {
            if rs.contains((k, true)) {
                let i = choose |i: int| 0 <= i < rs.len() && rs[i] == (k, true);
            }
        }
    } else if rs[0].1 {
        let x = rs[0].0;
        let g1 = mark_one(g, x);
        let q1 = propagate_from(g1, q, x);
        lemma_step_ok(g0, g, q, rs);
        lemma_run_safety(g0, g1, q1, rs.skip(1));
        lemma_evolved_trans(g, g1, gq.0);
        assert forall |k: Seq<char>| g.dom().contains(k)
            implies ((#[trigger] gq.0[k].processed)
                <==> (g[k].processed || rs.contains((k, true)))) by {
            lemma_skip1_contains(rs, (k, true));
            assert(g1.dom().contains(k));
        }
    } else {
        let x = rs[0].0;
        assert forall |i: int| 0 <= i < rs.skip(1).len() implies {
            &&& g0.dom().contains((#[trigger] rs.skip(1)[i]).0)
            &&& !g[rs.skip(1)[i].0].processed
            &&& deps_satisfied(g0, rs.skip(1)[i].0)
            &&& !q.contains(rs.skip(1)[i].0)
        } by {
            assert(rs.skip(1)[i] == rs[i + 1]);
        }
        assert forall |i: int, j: int| 0 <= i < j < rs.skip(1).len()
            implies rs.skip(1)[i].0 != rs.skip(1)[j].0 by {
            assert(rs.skip(1)[i] == rs[i + 1]);
            assert(rs.skip(1)[j] == rs[j + 1]);
        }
        lemma_run_safety(g0, g, q, rs.skip(1));
        assert forall |k: Seq<char>| g.dom().contains(k)
            implies ((#[trigger] gq.0[k].processed)
                <==> (g[k].processed || rs.contains((k, true)))) by {
            lemma_skip1_contains(rs, (k, true));
            assert(rs[0] != (k, true));
        }
    }
}

/// Applying a batch in which every dispatched transaction succeeded
/// restores the readiness invariant: afterwards, every unprocessed,
/// satisfied, linked node is queued again.
pub proof fn lemma_run_ready(
    g0: Map<Seq<char>, NodeView>,
    g: Map<Seq<char>, NodeView>,
    q: Seq<Seq<char>>,
    rs: Seq<(Seq<char>, bool)>,
)
    requires
        evolved(g0, g),
        safety_inv(g, q),
        batch_ok(g0, g, q, rs),
        ready_mid(g, q, rs),
    ensures
        ({ let gq = run_outcomes(g, q, rs);
           ready_queued(gq.0, gq.1)
        }),
    decreases rs.len(),
{
    let gq = run_outcomes(g, q, rs);
    if rs.len() == 0 {
    } else if rs[0].1 {
        let x = rs[0].0;
        let g1 = mark_one(g, x);
        let q1 = propagate_from(g1, q, x);
        lemma_step_ok(g0, g, q, rs);
        lemma_mark_one_evolved(g, x);
        lemma_links_evolved(g, g1);
        // the mid-batch readiness invariant moves one step
        assert forall |k: Seq<char>|
            #[trigger] g1.dom().contains(k)
            && !g1[k].processed
            && deps_satisfied(g1, k)
            && linked(g1, k)
            implies q1.contains(k) || rs.skip(1).contains((k, true)) by {
            assert(k != x);
            assert(linked(g, k));
            if deps_satisfied(g, k) {
                assert(q.contains(k) || rs.contains((k, true)));
                if q.contains(k) {
                    let i = choose |i: int| 0 <= i < q.len() && q[i] == k;
                    assert(q1[i] == k);
                    assert(q1.contains(k));
                } else {
                    lemma_skip1_contains(rs, (k, true));
                    assert(rs[0] != (k, true));
                }
            } else {
                // some dependency of k was done only by this very mark: it is x
                let i = choose |i: int| 0 <= i < g[k].deps.len()
                    && !dep_done(g, g[k].deps[i]);
                let d = g[k].deps[i];
                assert(g1[k].deps == g[k].deps);
                assert(dep_done(g1, g1[k].deps[i]));
                assert(d == x);
                assert(g1[x].dependents.contains(k));
                assert(g[x].dependents.contains(k));
                assert(q1.contains(k));
            }
        }
        lemma_run_ready(g0, g1, q1, rs.skip(1));
    } else {
        let x = rs[0].0;
        assert forall |i: int| 0 <= i < rs.skip(1).len() implies {
            &&& g0.dom().contains((#[trigger] rs.skip(1)[i]).0)
            &&& !g[rs.skip(1)[i].0].processed
            &&& deps_satisfied(g0, rs.skip(1)[i].0)
            &&& !q.contains(rs.skip(1)[i].0)
        } by {
            assert(rs.skip(1)[i] == rs[i + 1]);
        }
        assert forall |i: int, j: int| 0 <= i < j < rs.skip(1).len()
            implies rs.skip(1)[i].0 != rs.skip(1)[j].0 by {
            assert(rs.skip(1)[i] == rs[i + 1]);
            assert(rs.skip(1)[j] == rs[j + 1]);
        }
        assert forall |k: Seq<char>|
            #[trigger] g.dom().contains(k)
            && !g[k].processed
            && deps_satisfied(g, k)
            && linked(g, k)
            implies q.contains(k) || rs.skip(1).contains((k, true)) by {
            if !q.contains(k) {
                assert(rs.contains((k, true)));
                lemma_skip1_contains(rs, (k, true));
                assert(rs[0] != (k, true));
            }
        }
        lemma_run_ready(g0, g, q, rs.skip(1));
    }
}

/// What any batch of outcomes can touch: processed flags of named
/// identifiers, and queue entries drawn from recorded dependent lists.
/// Nothing else changes.  No scheduling invariant is assumed.
proof fn lemma_run_frame(
    g: Map<Seq<char>, NodeView>,
    q: Seq<Seq<char>>,
    rs: Seq<(Seq<char>, bool)>,
)
    ensures
        ({ let gq = run_outcomes(g, q, rs);
        &&& evolved(g, gq.0)
        &&& (forall |k: Seq<char>| g.dom().contains(k) && (#[trigger] gq.0[k].processed)
                ==> g[k].processed || (exists |i: int| 0 <= i < rs.len() && (#[trigger] rs[i]).0 == k))
        &&& (forall |k: Seq<char>| g.dom().contains(k)
                && (exists |i: int| 0 <= i < rs.len() && (#[trigger] rs[i]) == (k, true))
                ==> (#[trigger] gq.0[k].processed))
        &&& (forall |x: Seq<char>| #[trigger] gq.1.contains(x)
                ==> q.contains(x)
                    || (exists |d: Seq<char>| #[trigger] g.dom().contains(d)
                        && g[d].dependents.contains(x)))
        &&& q.len() <= gq.1.len()
        &&& (forall |i: int| 0 <= i < q.len() ==> gq.1[i] == q[i])
        }),
    decreases rs.len(),
{
    let gq = run_outcomes(g, q, rs);
    if rs.len() == 0 {
        assert forall |k: Seq<char>| g.dom().contains(k)
            && (exists |i: int| 0 <= i < rs.len() && (#[trigger] rs[i]) == (k, true))
            implies (#[trigger] gq.0[k].processed) by {
            let i = choose |i: int| 0 <= i < rs.len() && rs[i] == (k, true);
        }
    } else if rs[0].1 {
        let x = rs[0].0;
        let g1 = mark_one(g, x);
        let q1 = propagate_from(g1, q, x);
        lemma_mark_one_evolved(g, x);
        lemma_run_frame(g1, q1, rs.skip(1));
        lemma_evolved_trans(g, g1, gq.0);
        if g1.dom().contains(x) {
            lemma_enqueue_props(g1, q, g1[x].dependents);
        }
        assert forall |k: Seq<char>| g.dom().contains(k) && (#[trigger] gq.0[k].processed)
            implies g[k].processed
                || (exists |i: int| 0 <= i < rs.len() && (#[trigger] rs[i]).0 == k) by {
            if !g[k].processed {
                if g1[k].processed {
                    assert(rs[0].0 == k);
                } else {
                    let i = choose |i: int| 0 <= i < rs.skip(1).len() && rs.skip(1)[i].0 == k;
                    assert(rs[i + 1].0 == k);
                }
            }
        }
        assert forall |y: Seq<char>| #[trigger] gq.1.contains(y)
            implies q.contains(y)
                || (exists |d: Seq<char>| #[trigger] g.dom().contains(d)
                    && g[d].dependents.contains(y)) by {
            if !q.contains(y) {
                if q1.contains(y) {
                    assert(g.dom().contains(x) && g[x].dependents.contains(y));
                } else {
                    let d = choose |d: Seq<char>| #[trigger] g1.dom().contains(d)
                        && g1[d].dependents.contains(y);
                    assert(g.dom().contains(d) && g[d].dependents.contains(y));
                }
            }
        }
        // a success named in the batch ends up processed
        assert forall |k: Seq<char>| g.dom().contains(k)
            && (exists |i: int| 0 <= i < rs.len() && (#[trigger] rs[i]) == (k, true))
            implies (#[trigger] gq.0[k].processed) by {
            let i = choose |i: int| 0 <= i < rs.len() && rs[i] == (k, true);
            if i == 0 {
                assert(g1[k].processed);
            } else {
                assert(rs.skip(1)[i - 1] == (k, true));
            }
        }
        // the surviving queue keeps its front
        assert forall |i: int| 0 <= i < q.len() implies gq.1[i] == q[i] by {
            assert(q1[i] == q[i]);
        }
    } else {
        assert(gq == run_outcomes(g, q, rs.skip(1)));
        lemma_run_frame(g, q, rs.skip(1));
        assert forall |k: Seq<char>| g.dom().contains(k) && (#[trigger] gq.0[k].processed)
            implies g[k].processed
                || (exists |i: int| 0 <= i < rs.len() && (#[trigger] rs[i]).0 == k) by {
            if !g[k].processed {
                let i = choose |i: int| 0 <= i < rs.skip(1).len() && rs.skip(1)[i].0 == k;
                assert(rs[i + 1].0 == k);
            }
        }
        assert forall |k: Seq<char>| g.dom().contains(k)
            && (exists |i: int| 0 <= i < rs.len() && (#[trigger] rs[i]) == (k, true))
            implies (#[trigger] gq.0[k].processed) by {
            let i = choose |i: int| 0 <= i < rs.len() && rs[i] == (k, true);
            assert(i != 0);
            assert(rs.skip(1)[i - 1] == (k, true));
        }
    }
}

/// The hypotheses of [`lemma_run_safety`] hold of the batch a tick pops:
/// this bridges the scheduling invariant to the batch conditions.
proof fn lemma_tick_setup(v: DagView)
    requires
        wf_state(v),
        sched_inv(v),
    ensures
        ({ let b = batch_len(v) as int;
           let rs = all_ok(v.queue.take(b));
           let rest = v.queue.skip(b);
        &&& rs.len() == batch_len(v)
        &&& (forall |i: int| 0 <= i < rs.len() ==> (#[trigger] rs[i]) == (v.queue[i], true))
        &&& safety_inv(v.nodes, rest)
        &&& batch_ok(v.nodes, v.nodes, rest, rs)
        &&& ready_mid(v.nodes, rest, rs)
        }),
{
    let b = batch_len(v) as int;
    let batch = v.queue.take(b);
    let rest = v.queue.skip(b);
    let rs = all_ok(batch);
    assert forall |i: int| 0 <= i < rs.len() implies (#[trigger] rs[i]) == (v.queue[i], true) by {
        assert(rs[i] == (batch[i], true));
    }
    assert forall |i: int| 0 <= i < rest.len() implies v.nodes.dom().contains(#[trigger] rest[i])
        && !v.nodes[rest[i]].processed && deps_satisfied(v.nodes, rest[i]) by {
        assert(rest[i] == v.queue[b + i]);
        assert(v.nodes.dom().contains(v.queue[b + i]));
        assert(!v.nodes[v.queue[b + i]].processed);
        assert(deps_satisfied(v.nodes, v.queue[b + i]));
    }
    assert forall |i: int, j: int| 0 <= i < j < rest.len() implies rest[i] != rest[j] by {
        assert(rest[i] == v.queue[b + i]);
        assert(rest[j] == v.queue[b + j]);
    }
    assert forall |i: int| 0 <= i < rs.len() implies {
        &&& v.nodes.dom().contains((#[trigger] rs[i]).0)
        &&& !v.nodes[rs[i].0].processed
        &&& deps_satisfied(v.nodes, rs[i].0)
        &&& !rest.contains(rs[i].0)
    } by {
        assert(rs[i].0 == v.queue[i]);
        assert(v.nodes.dom().contains(v.queue[i]));
        assert(!v.nodes[v.queue[i]].processed);
        assert(deps_satisfied(v.nodes, v.queue[i]));
        if rest.contains(v.queue[i]) {
            let j = choose |j: int| 0 <= j < rest.len() && rest[j] == v.queue[i];
            assert(rest[j] == v.queue[b + j]);
            assert(v.queue[i] != v.queue[b + j]);
        }
    }
    assert forall |i: int, j: int| 0 <= i < j < rs.len() implies rs[i].0 != rs[j].0 by {
        assert(rs[i].0 == v.queue[i]);
        assert(rs[j].0 == v.queue[j]);
    }
    assert forall |k: Seq<char>|
        #[trigger] v.nodes.dom().contains(k)
        && !v.nodes[k].processed
        && deps_satisfied(v.nodes, k)
        && linked(v.nodes, k)
        implies rest.contains(k) || rs.contains((k, true)) by {
        assert(v.queue.contains(k));
        let i = choose |i: int| 0 <= i < v.queue.len() && v.queue[i] == k;
        if i < b {
            assert(rs[i] == (v.queue[i], true));
            assert(rs.contains((k, true)));
        } else {
            assert(rest[i - b] == k);
            assert(rest.contains(k));
        }
    }
}

/// One tick keeps the scheduling invariant; a node processed by the tick
/// had every dependency processed before the tick began and was dispatched
/// from the front of the queue; a nonempty queue makes progress whenever
/// the concurrency bound admits work; and the tick touches neither the
/// links, the rank witness, nor the pending snapshot.
pub proof fn lemma_tick_laws(v: DagView)
    requires
        wf_state(v),
        sched_inv(v),
    ensures
        wf_state(tick_step(v)),
        sched_inv(tick_step(v)),
        evolved(v.nodes, tick_step(v).nodes),
        tick_step(v).nodes.dom() == v.nodes.dom(),
        tick_step(v).pending == v.pending,
        tick_step(v).max_parallel == v.max_parallel,
        forall |k: Seq<char>|
            v.nodes.dom().contains(k)
            && (#[trigger] tick_step(v).nodes[k].processed)
            && !v.nodes[k].processed
            ==> deps_satisfied(v.nodes, k)
                && v.queue.take(batch_len(v) as int).contains(k),
        v.queue.len() > 0 && v.max_parallel >= 1
            ==> processed_ids(tick_step(v).nodes).len() > processed_ids(v.nodes).len(),
        processed_ids(v.nodes).subset_of(processed_ids(tick_step(v).nodes)),
        fully_linked(v.nodes) ==> fully_linked(tick_step(v).nodes),
        forall |rank: Map<Seq<char>, nat>|
            ranked(v.nodes, rank) ==> #[trigger] ranked(tick_step(v).nodes, rank),
    {
    let b = batch_len(v) as int;
    let batch = v.queue.take(b);
    let rest = v.queue.skip(b);
    let rs = all_ok(batch);
    let gq = run_outcomes(v.nodes, rest, rs);
    lemma_tick_setup(v);
    lemma_run_safety(v.nodes, v.nodes, rest, rs);
    lemma_run_ready(v.nodes, v.nodes, rest, rs);
    lemma_links_evolved(v.nodes, gq.0);
    assert(tick_step(v).nodes == gq.0);
    assert(tick_step(v).queue == gq.1);

    // a newly processed node is a dispatched one, safe at dispatch time
    assert forall |k: Seq<char>|
        v.nodes.dom().contains(k)
        && (#[trigger] gq.0[k].processed)
        && !v.nodes[k].processed
        implies deps_satisfied(v.nodes, k) && batch.contains(k) by {
        assert(rs.contains((k, true)));
        let i = choose |i: int| 0 <= i < rs.len() && rs[i] == (k, true);
        assert(rs[i] == (v.queue[i], true));
        assert(batch[i] == k);
    }

    // the processed set only grows
    assert forall |k: Seq<char>| processed_ids(v.nodes).contains(k)
        implies processed_ids(gq.0).contains(k) by {
        assert(v.nodes.dom().contains(k));
        assert(gq.0[k].processed);
    }

    // progress: the head of the queue gets processed
    if v.queue.len() > 0 && v.max_parallel >= 1 {
        let x = v.queue[0];
        assert(b >= 1);
        assert(rs[0] == (v.queue[0], true));
        assert(rs.contains((x, true)));
        assert(gq.0[x].processed);
        assert(!v.nodes[x].processed);
        assert(processed_ids(gq.0).contains(x));
        assert(!processed_ids(v.nodes).contains(x));
        lemma_processed_ids_bound(v.nodes);
        lemma_processed_ids_bound(gq.0);
        assert(processed_ids(v.nodes).insert(x).subset_of(processed_ids(gq.0)));
        vstd::set_lib::lemma_len_subset(processed_ids(v.nodes).insert(x), processed_ids(gq.0));
        assert(processed_ids(v.nodes).insert(x).len() == processed_ids(v.nodes).len() + 1);
    }
}

/// Dependency safety, whatever the outcomes: after a dispatched batch is
/// applied — successes and failures mixed — every node that became
/// processed had all of its dependencies processed when dispatch was
/// permitted, and was one of the dispatched identifiers; and every
/// processed node's dependencies remain processed.
pub proof fn lemma_dispatch_safety(v: DagView, oks: Seq<bool>)
    requires
        wf_state(v),
        sched_inv(v),
        oks.len() == batch_len(v),
    ensures
        ({ let b = batch_len(v) as int;
           let rs = Seq::new(batch_len(v), |i: int| (v.queue[i], oks[i]));
           let gq = run_outcomes(v.nodes, v.queue.skip(b), rs);
        &&& (forall |k: Seq<char>|
                v.nodes.dom().contains(k)
                && (#[trigger] gq.0[k].processed)
                && !v.nodes[k].processed
                ==> deps_satisfied(v.nodes, k) && v.queue.take(b).contains(k))
        &&& processed_satisfied(gq.0)
        &&& safety_inv(gq.0, gq.1)
        &&& evolved(v.nodes, gq.0)
        }),
{
    let b = batch_len(v) as int;
    let rest = v.queue.skip(b);
    let rs = Seq::new(batch_len(v), |i: int| (v.queue[i], oks[i]));
    let gq = run_outcomes(v.nodes, rest, rs);
    assert forall |i: int| 0 <= i < rest.len() implies v.nodes.dom().contains(#[trigger] rest[i])
        && !v.nodes[rest[i]].processed && deps_satisfied(v.nodes, rest[i]) by {
        assert(rest[i] == v.queue[b + i]);
        assert(v.nodes.dom().contains(v.queue[b + i]));
        assert(!v.nodes[v.queue[b + i]].processed);
        assert(deps_satisfied(v.nodes, v.queue[b + i]));
    }
    assert forall |i: int, j: int| 0 <= i < j < rest.len() implies rest[i] != rest[j] by {
        assert(rest[i] == v.queue[b + i]);
        assert(rest[j] == v.queue[b + j]);
    }
    assert forall |i: int| 0 <= i < rs.len() implies {
        &&& v.nodes.dom().contains((#[trigger] rs[i]).0)
        &&& !v.nodes[rs[i].0].processed
        &&& deps_satisfied(v.nodes, rs[i].0)
        &&& !rest.contains(rs[i].0)
    } by {
        assert(rs[i].0 == v.queue[i]);
        assert(v.nodes.dom().contains(v.queue[i]));
        assert(!v.nodes[v.queue[i]].processed);
        assert(deps_satisfied(v.nodes, v.queue[i]));
        if rest.contains(v.queue[i]) {
            let j = choose |j: int| 0 <= j < rest.len() && rest[j] == v.queue[i];
            assert(rest[j] == v.queue[b + j]);
            assert(v.queue[i] != v.queue[b + j]);
        }
    }
    assert forall |i: int, j: int| 0 <= i < j < rs.len() implies rs[i].0 != rs[j].0 by {
        assert(rs[i].0 == v.queue[i]);
        assert(rs[j].0 == v.queue[j]);
    }
    lemma_run_safety(v.nodes, v.nodes, rest, rs);
    assert forall |k: Seq<char>|
        v.nodes.dom().contains(k)
        && (#[trigger] gq.0[k].processed)
        && !v.nodes[k].processed
        implies deps_satisfied(v.nodes, k) && v.queue.take(b).contains(k) by {
        assert(rs.contains((k, true)));
        let i = choose |i: int| 0 <= i < rs.len() && rs[i] == (k, true);
        assert(rs[i] == (v.queue[i], oks[i]));
        assert(v.queue.take(b)[i] == k);
    }
}

/// A pushed element joins a sequence's members.
proof fn lemma_push_contains<T>(s: Seq<T>, a: T, x: T)
    ensures
        s.push(a).contains(x) <==> (s.contains(x) || x == a),
{
    if s.push(a).contains(x) {
        let i = choose |i: int| 0 <= i < s.push(a).len() && s.push(a)[i] == x;
        if i < s.len() {
            assert(s[i] == x);
        }
    }
    if s.contains(x) {
        let i = choose |i: int| 0 <= i < s.len() && s[i] == x;
        assert(s.push(a)[i] == x);
    }
    assert(s.push(a)[s.len() as int] == a);
}

/// What recording links does to a dependent list: an identifier stands in
/// the list of `d` afterwards exactly when it already did, or it is the new
/// transaction's identifier and `d` is one of its present dependencies.
proof fn lemma_record_links_adds(
    g: Map<Seq<char>, NodeView>,
    ds: Seq<Seq<char>>,
    id: Seq<char>,
)
    ensures
        ({ let rl = record_links(g, ds, id);
           forall |d: Seq<char>, x: Seq<char>| g.dom().contains(d)
               ==> ((#[trigger] rl[d].dependents.contains(x))
                   <==> (g[d].dependents.contains(x) || (x == id && ds.contains(d))))
        }),
    decreases ds.len(),
{
    let rl = record_links(g, ds, id);
    lemma_record_links_frame(g, ds, id);
    if ds.len() == 0 {
        assert forall |d: Seq<char>, x: Seq<char>| g.dom().contains(d)
            implies ((#[trigger] rl[d].dependents.contains(x))
                <==> (g[d].dependents.contains(x) || (x == id && ds.contains(d)))) by {
            if ds.contains(d) {
                let i = choose |i: int| 0 <= i < ds.len() && ds[i] == d;
            }
        }
    } else {
        let d0 = ds[0];
        let g1 = if g.dom().contains(d0) {
            g.insert(d0, NodeView { dependents: g[d0].dependents.push(id), ..g[d0] })
        } else {
            g
        };
        lemma_record_links_adds(g1, ds.skip(1), id);
        assert forall |d: Seq<char>, x: Seq<char>| g.dom().contains(d)
            implies ((#[trigger] rl[d].dependents.contains(x))
                <==> (g[d].dependents.contains(x) || (x == id && ds.contains(d)))) by {
            lemma_skip1_contains(ds, d);
            assert(rl == record_links(g1, ds.skip(1), id));
            assert(g1.dom().contains(d));
            assert(rl[d].dependents.contains(x)
                <==> (g1[d].dependents.contains(x) || (x == id && ds.skip(1).contains(d))));
            if d == d0 && g.dom().contains(d0) {
                lemma_push_contains(g[d0].dependents, id, x);
                assert(g1[d].dependents == g[d0].dependents.push(id));
                assert(ds.contains(d0));
            } else {
                assert(g1[d].dependents == g[d].dependents);
            }
        }
    }
}

/// Ingestion keeps the graph well formed, whatever the transaction.
pub proof fn lemma_add_wf(v: DagView, t: TxView)
    requires
        wf_state(v),
    ensures
        wf_state(add_step(v, t)),
        add_step(v, t).nodes.dom() == v.nodes.dom().insert(t.id),
        add_step(v, t).pending == v.pending,
        add_step(v, t).max_parallel == v.max_parallel,
{
    let g1 = v.nodes.insert(t.id, fresh_view(t));
    lemma_record_links_frame(g1, t.dependencies, t.id);
    assert(g1.dom() =~= v.nodes.dom().insert(t.id));
    let v2 = add_step(v, t);
    assert forall |i: int| 0 <= i < v2.queue.len()
        implies v2.nodes.dom().contains(#[trigger] v2.queue[i]) by {
        if i < v.queue.len() {
            assert(v.nodes.dom().contains(v.queue[i]));
        } else {
            assert(v2.queue[i] == t.id);
        }
    }
}

/// Ingesting a fresh transaction during the insertion phase — no node
/// processed yet — keeps the scheduling invariant; and when every
/// dependency it names is already present, and no earlier node names the
/// newcomer as a dependency, full linkage and a rank witness extend to it.
pub proof fn lemma_add_laws(v: DagView, t: TxView)
    requires
        wf_state(v),
        sched_inv(v),
        all_unprocessed(v.nodes),
        !v.nodes.dom().contains(t.id),
    ensures
        wf_state(add_step(v, t)),
        sched_inv(add_step(v, t)),
        all_unprocessed(add_step(v, t).nodes),
        add_step(v, t).nodes.dom() == v.nodes.dom().insert(t.id),
        (fully_linked(v.nodes)
            && (forall |i: int| 0 <= i < t.dependencies.len()
                ==> v.nodes.dom().contains(#[trigger] t.dependencies[i])))
            ==> fully_linked(add_step(v, t).nodes),
{
    lemma_add_wf(v, t);
    let g1 = v.nodes.insert(t.id, fresh_view(t));
    let g2 = record_links(g1, t.dependencies, t.id);
    let v2 = add_step(v, t);
    lemma_record_links_frame(g1, t.dependencies, t.id);
    lemma_record_links_adds(g1, t.dependencies, t.id);
    assert(g1.dom() =~= v.nodes.dom().insert(t.id));

    // no processed flag appears
    assert forall |k: Seq<char>| #[trigger] g2.dom().contains(k) implies !g2[k].processed by {
        if k == t.id {
            assert(g1[k].processed == false);
        } else {
            assert(g1[k] == v.nodes[k]);
        }
    }

    // with nothing processed, a satisfied node has no dependencies at all
    assert forall |k: Seq<char>| #[trigger] deps_satisfied(g2, k)
        implies g2[k].deps.len() == 0 by {
        if g2[k].deps.len() > 0 {
            assert(dep_done(g2, g2[k].deps[0]));
            assert(g2[g2[k].deps[0]].processed);
        }
    }
    assert forall |k: Seq<char>| v.nodes.dom().contains(k) && #[trigger] deps_satisfied(v.nodes, k)
        implies v.nodes[k].deps.len() == 0 by {
        if v.nodes[k].deps.len() > 0 {
            assert(dep_done(v.nodes, v.nodes[k].deps[0]));
            assert(v.nodes[v.nodes[k].deps[0]].processed);
        }
    }

    // the queue stays distinct, unprocessed and satisfied
    assert forall |i: int, j: int| 0 <= i < j < v2.queue.len()
        implies v2.queue[i] != v2.queue[j] by {
        if j == v.queue.len() as int {
            assert(v2.queue[j] == t.id);
            assert(v.nodes.dom().contains(v.queue[i]));
        }
    }
    assert forall |i: int| 0 <= i < v2.queue.len()
        implies !g2[#[trigger] v2.queue[i]].processed by {
        assert(g2.dom().contains(v2.queue[i]));
    }
    assert forall |i: int| 0 <= i < v2.queue.len()
        implies deps_satisfied(g2, #[trigger] v2.queue[i]) by {
        let k = v2.queue[i];
        if i < v.queue.len() {
            assert(deps_satisfied(v.nodes, k));
            assert(v.nodes[k].deps.len() == 0);
            assert(v.nodes.dom().contains(k));
            assert(k != t.id);
            assert(g1.dom().contains(k));
            assert(g1[k] == v.nodes[k]);
            assert(g2[k].deps == g1[k].deps);
        } else {
            assert(k == t.id);
            assert(t.dependencies.len() == 0);
            assert(g1.dom().contains(t.id));
            assert(g1[t.id] == fresh_view(t));
            assert(g2[t.id].deps == g1[t.id].deps);
        }
    }

    // every recorded dependent link still points back
    assert forall |d: Seq<char>, i: int|
        g2.dom().contains(d) && 0 <= i < g2[d].dependents.len()
        implies g2.dom().contains(#[trigger] g2[d].dependents[i])
            && g2[g2[d].dependents[i]].deps.contains(d) by {
        let x = g2[d].dependents[i];
        assert(g2[d].dependents.contains(x));
        if g1[d].dependents.contains(x) {
            if d == t.id {
                assert(g1[t.id].dependents =~= Seq::<Seq<char>>::empty());
                assert(false);
            } else {
                assert(g1[d] == v.nodes[d]);
                let j = choose |j: int| 0 <= j < v.nodes[d].dependents.len()
                    && v.nodes[d].dependents[j] == x;
                assert(v.nodes.dom().contains(x));
                assert(v.nodes[x].deps.contains(d));
                assert(x != t.id);
                assert(g1.dom().contains(x));
                assert(g1[x] == v.nodes[x]);
                assert(g2[x].deps == g1[x].deps);
            }
        } else {
            assert(x == t.id && t.dependencies.contains(d));
            assert(g1.dom().contains(t.id));
            assert(g1[t.id] == fresh_view(t));
            assert(g2[t.id].deps == g1[t.id].deps);
        }
    }

    // every ready node is queued
    assert forall |k: Seq<char>|
        #[trigger] g2.dom().contains(k)
        && !g2[k].processed
        && deps_satisfied(g2, k)
        && linked(g2, k)
        implies v2.queue.contains(k) by {
        assert(g2[k].deps.len() == 0);
        if k == t.id {
            assert(g1.dom().contains(t.id));
            assert(g1[t.id] == fresh_view(t));
            assert(g2[t.id].deps == g1[t.id].deps);
            assert(t.dependencies.len() == 0);
            assert(v2.queue[v.queue.len() as int] == t.id);
        } else {
            assert(g1.dom().contains(k));
            assert(g1[k] == v.nodes[k]);
            assert(g2[k].deps == g1[k].deps);
            assert(deps_satisfied(v.nodes, k));
            assert(linked(v.nodes, k));
            assert(v.queue.contains(k));
            let i = choose |i: int| 0 <= i < v.queue.len() && v.queue[i] == k;
            assert(v2.queue[i] == k);
        }
    }

    // full linkage extends when the dependencies are all present
    if fully_linked(v.nodes)
        && (forall |i: int| 0 <= i < t.dependencies.len()
            ==> v.nodes.dom().contains(#[trigger] t.dependencies[i])) {
        assert forall |k: Seq<char>| #[trigger] g2.dom().contains(k) implies linked(g2, k) by {
            if k == t.id {
                assert forall |i: int| 0 <= i < g2[k].deps.len()
                    implies g2.dom().contains(#[trigger] g2[k].deps[i])
                        && g2[g2[k].deps[i]].dependents.contains(k) by {
                    assert(g1.dom().contains(t.id));
                    assert(g1[t.id] == fresh_view(t));
                    assert(g2[t.id].deps == g1[t.id].deps);
                    let d = g2[k].deps[i];
                    assert(v.nodes.dom().contains(d));
                    assert(t.dependencies.contains(d));
                    assert(g1.dom().contains(d));
                    assert(g2[d].dependents.contains(t.id));
                }
            } else {
                assert(linked(v.nodes, k));
                assert forall |i: int| 0 <= i < g2[k].deps.len()
                    implies g2.dom().contains(#[trigger] g2[k].deps[i])
                        && g2[g2[k].deps[i]].dependents.contains(k) by {
                    assert(g1.dom().contains(k));
                    assert(g1[k] == v.nodes[k]);
                    assert(g2[k].deps == g1[k].deps);
                    let d = v.nodes[k].deps[i];
                    assert(v.nodes.dom().contains(d));
                    assert(v.nodes[d].dependents.contains(k));
                    assert(d != t.id);
                    assert(g1[d] == v.nodes[d]);
                    assert(g1[d].dependents.contains(k));
                    assert(g2[d].dependents.contains(k));
                }
            }
        }
    }
}

/// A rank witness extends over a fresh transaction whose present
/// dependencies all rank below `r`, provided no existing node names the
/// newcomer among its dependencies.
pub proof fn lemma_add_ranked(v: DagView, t: TxView, rank: Map<Seq<char>, nat>, r: nat)
    requires
        ranked(v.nodes, rank),
        !v.nodes.dom().contains(t.id),
        forall |i: int| 0 <= i < t.dependencies.len()
            ==> v.nodes.dom().contains(#[trigger] t.dependencies[i])
                && rank[t.dependencies[i]] < r,
        forall |k: Seq<char>, i: int|
            v.nodes.dom().contains(k) && 0 <= i < v.nodes[k].deps.len()
            ==> (#[trigger] v.nodes[k].deps[i]) != t.id,
    ensures
        ranked(add_step(v, t).nodes, rank.insert(t.id, r)),
{
    let g1 = v.nodes.insert(t.id, fresh_view(t));
    let g2 = add_step(v, t).nodes;
    let rank2 = rank.insert(t.id, r);
    lemma_record_links_frame(g1, t.dependencies, t.id);
    assert forall |k: Seq<char>| #[trigger] g2.dom().contains(k)
        implies rank2.dom().contains(k) by {
        if k != t.id {
            assert(v.nodes.dom().contains(k));
        }
    }
    assert forall |k: Seq<char>, i: int|
        g2.dom().contains(k) && 0 <= i < g2[k].deps.len()
        && g2.dom().contains(#[trigger] g2[k].deps[i])
        implies rank2[g2[k].deps[i]] < rank2[k] by {
        if k == t.id {
            assert(g1.dom().contains(t.id));
            assert(g1[t.id] == fresh_view(t));
            assert(g2[t.id].deps == g1[t.id].deps);
            let d = t.dependencies[i];
            assert(v.nodes.dom().contains(d));
            assert(d != t.id);
            assert(rank2[d] == rank[d]);
        } else {
            assert(g1.dom().contains(k));
            assert(g1[k] == v.nodes[k]);
            assert(g2[k].deps == g1[k].deps);
            let d = v.nodes[k].deps[i];
            assert(d != t.id);
            assert(v.nodes.dom().contains(d));
            assert(rank2[d] == rank[d]);
            assert(rank2[k] == rank[k]);
        }
    }
}

/// A finite nonempty set of identifiers has one of minimal rank.
proof fn lemma_min_rank(s: Set<Seq<char>>, rank: Map<Seq<char>, nat>)
    requires
        s.finite(),
        s.len() > 0,
    ensures
        exists |m: Seq<char>| #[trigger] s.contains(m)
            && forall |k: Seq<char>| #[trigger] s.contains(k) ==> rank[m] <= rank[k],
    decreases s.len(),
{
    assert(exists |x: Seq<char>| s.contains(x)) by {
        if forall |x: Seq<char>| !(#[trigger] s.contains(x)) {
            assert(s =~= Set::empty());
        }
    }
    let a = choose |a: Seq<char>| s.contains(a);
    let s1 = s.remove(a);
    if s1.len() == 0 {
        assert forall |k: Seq<char>| #[trigger] s.contains(k) implies rank[a] <= rank[k] by {
            if k != a {
                assert(s1.contains(k));
                if forall |x: Seq<char>| !(#[trigger] s1.contains(x)) {
                }
                assert(s1 =~= Set::empty() || s1.len() > 0) by {
                    if exists |x: Seq<char>| s1.contains(x) {
                        let x = choose |x: Seq<char>| s1.contains(x);
                        assert(s1.remove(x).len() == s1.len() - 1);
                    } else {
                        assert(s1 =~= Set::empty());
                    }
                }
            }
        }
        assert(s.contains(a));
    } else {
        lemma_min_rank(s1, rank);
        let m1 = choose |m: Seq<char>| #[trigger] s1.contains(m)
            && forall |k: Seq<char>| #[trigger] s1.contains(k) ==> rank[m] <= rank[k];
        if rank[a] <= rank[m1] {
            assert forall |k: Seq<char>| #[trigger] s.contains(k) implies rank[a] <= rank[k] by {
                if k != a {
                    assert(s1.contains(k));
                }
            }
            assert(s.contains(a));
        } else {
            assert forall |k: Seq<char>| #[trigger] s.contains(k) implies rank[m1] <= rank[k] by {
                if k != a {
                    assert(s1.contains(k));
                }
            }
            assert(s.contains(m1));
        }
    }
}

/// When the queue is empty, a fully linked graph with a rank witness has no
/// unprocessed node left: an idle scheduler is a finished one.
pub proof fn lemma_idle_means_done(
    g: Map<Seq<char>, NodeView>,
    q: Seq<Seq<char>>,
    rank: Map<Seq<char>, nat>,
)
    requires
        wf_pair(g, q),
        ready_queued(g, q),
        fully_linked(g),
        ranked(g, rank),
        q.len() == 0,
    ensures
        all_processed(g),
{
    if !all_processed(g) {
        let s = g.dom().filter(|k: Seq<char>| !g[k].processed);
        let k0 = choose |k: Seq<char>| g.dom().contains(k) && !g[k].processed;
        assert(s.contains(k0));
        vstd::set_lib::lemma_len_subset(s, g.dom());
        assert(s.len() > 0) by {
            if s.len() == 0 {
                assert(s.remove(k0).len() == s.len() - 1);
            }
        }
        lemma_min_rank(s, rank);
        let m = choose |m: Seq<char>| #[trigger] s.contains(m)
            && forall |k: Seq<char>| #[trigger] s.contains(k) ==> rank[m] <= rank[k];
        assert(linked(g, m));
        assert forall |i: int| 0 <= i < g[m].deps.len()
            implies dep_done(g, #[trigger] g[m].deps[i]) by {
            let d = g[m].deps[i];
            assert(g.dom().contains(d));
            if !g[d].processed {
                assert(s.contains(d));
                assert(rank[m] <= rank[d]);
                assert(rank[d] < rank[m]);
            }
        }
        assert(deps_satisfied(g, m));
        assert(q.contains(m));
    }
}

/// Liveness: from any state satisfying the scheduling invariant, fully
/// linked and acyclic — the state reached by submitting transactions in a
/// topological order, see [`lemma_add_laws`] — enough ticks with no
/// processing failure drain the graph completely: `pending_nodes` reaches
/// zero and stays there.
pub proof fn lemma_liveness(v: DagView, rank: Map<Seq<char>, nat>, n: nat)
    requires
        wf_state(v),
        sched_inv(v),
        fully_linked(v.nodes),
        ranked(v.nodes, rank),
        v.max_parallel >= 1,
        n + processed_ids(v.nodes).len() >= v.nodes.dom().len(),
    ensures
        all_processed(run_ticks(v, n).nodes),
        processed_ids(run_ticks(v, n).nodes) == run_ticks(v, n).nodes.dom(),
        run_ticks(v, n).nodes.dom() == v.nodes.dom(),
    decreases n,
{
    lemma_processed_ids_bound(v.nodes);
    if n == 0 {
        assert(processed_ids(v.nodes).len() == v.nodes.dom().len());
        assert forall |k: Seq<char>| #[trigger] v.nodes.dom().contains(k)
            implies v.nodes[k].processed by {
            if !v.nodes[k].processed {
                assert(!processed_ids(v.nodes).contains(k));
                assert(processed_ids(v.nodes).insert(k).subset_of(v.nodes.dom()));
                vstd::set_lib::lemma_len_subset(
                    processed_ids(v.nodes).insert(k),
                    v.nodes.dom(),
                );
                assert(processed_ids(v.nodes).insert(k).len()
                    == processed_ids(v.nodes).len() + 1);
            }
        }
        assert(processed_ids(v.nodes) =~= v.nodes.dom());
    } else {
        let v1 = tick_step(v);
        lemma_tick_laws(v);
        assert(v1.max_parallel == v.max_parallel);
        if v.queue.len() == 0 {
            lemma_idle_means_done(v.nodes, v.queue, rank);
            assert(processed_ids(v.nodes) =~= v.nodes.dom());
            assert(processed_ids(v1.nodes).len() >= processed_ids(v.nodes).len()) by {
                lemma_processed_ids_bound(v1.nodes);
                vstd::set_lib::lemma_len_subset(processed_ids(v.nodes), processed_ids(v1.nodes));
            }
            lemma_liveness(v1, rank, (n - 1) as nat);
        } else {
            assert(processed_ids(v1.nodes).len() > processed_ids(v.nodes).len());
            lemma_liveness(v1, rank, (n - 1) as nat);
        }
        assert(run_ticks(v, n) == run_ticks(v1, (n - 1) as nat));
    }
}

/// The state after submitting a batch of transactions, in order.
pub open spec fn add_all(v: DagView, txs: Seq<TxView>) -> DagView
    decreases txs.len(),
{
    if txs.len() == 0 { v } else { add_all(add_step(v, txs[0]), txs.skip(1)) }
}

/// A topological submission: identifiers are distinct, and every
/// dependency names an earlier transaction of the batch.
pub open spec fn topological(txs: Seq<TxView>) -> bool {
    (forall |i: int, j: int| 0 <= i < j < txs.len() ==> txs[i].id != txs[j].id)
    && (forall |i: int, k: int|
        0 <= i < txs.len() && 0 <= k < txs[i].dependencies.len()
        ==> exists |j: int| 0 <= j < i && (#[trigger] txs[i].dependencies[k]) == txs[j].id)
}

/// Submitting transactions whose identifiers are fresh and whose
/// dependencies are present or earlier in the batch preserves the
/// scheduling invariant, keeps every node linked, and extends a rank
/// witness.
proof fn lemma_add_all_preserves(
    v: DagView,
    txs: Seq<TxView>,
    rank: Map<Seq<char>, nat>,
    r: nat,
)
    requires
        wf_state(v),
        sched_inv(v),
        all_unprocessed(v.nodes),
        fully_linked(v.nodes),
        ranked(v.nodes, rank),
        forall |x: Seq<char>| #[trigger] rank.dom().contains(x) ==> rank[x] < r,
        forall |k: Seq<char>| #[trigger] v.nodes.dom().contains(k) ==> rank.dom().contains(k),
        forall |i: int| 0 <= i < txs.len() ==> !v.nodes.dom().contains((#[trigger] txs[i]).id),
        forall |i: int, j: int| 0 <= i < j < txs.len() ==> txs[i].id != txs[j].id,
        forall |i: int, k: int|
            0 <= i < txs.len() && 0 <= k < txs[i].dependencies.len()
            ==> v.nodes.dom().contains(#[trigger] txs[i].dependencies[k])
                || (exists |j: int| 0 <= j < i && txs[i].dependencies[k] == (#[trigger] txs[j]).id),
    ensures
        ({ let vf = add_all(v, txs);
        &&& wf_state(vf)
        &&& sched_inv(vf)
        &&& all_unprocessed(vf.nodes)
        &&& fully_linked(vf.nodes)
        &&& (exists |rank2: Map<Seq<char>, nat>| #[trigger] ranked(vf.nodes, rank2))
        &&& vf.max_parallel == v.max_parallel
        &&& vf.nodes.dom().len() <= v.nodes.dom().len() + txs.len()
        }),
    decreases txs.len(),
{
    if txs.len() == 0 {
        assert(ranked(v.nodes, rank));
    } else {
        let t = txs[0];
        let v1 = add_step(v, t);
        // every dependency of the first transaction is already present
        assert forall |k: int| 0 <= k < t.dependencies.len()
            implies v.nodes.dom().contains(#[trigger] t.dependencies[k])
                && rank[t.dependencies[k]] < r by {
            if !v.nodes.dom().contains(t.dependencies[k]) {
                let j = choose |j: int| 0 <= j < 0 && t.dependencies[k] == (#[trigger] txs[j]).id;
            }
        }
        // no present node names the newcomer: every present dependency is a node
        assert forall |k: Seq<char>, i: int|
            v.nodes.dom().contains(k) && 0 <= i < v.nodes[k].deps.len()
            implies (#[trigger] v.nodes[k].deps[i]) != t.id by {
            assert(linked(v.nodes, k));
            assert(v.nodes.dom().contains(v.nodes[k].deps[i]));
        }
        lemma_add_laws(v, t);
        lemma_add_ranked(v, t, rank, r);
        let rank1 = rank.insert(t.id, r);
        assert(v1.nodes.dom() =~= v.nodes.dom().insert(t.id));
        // the rest of the batch is still fresh and topological over v1
        assert forall |i: int| 0 <= i < txs.skip(1).len()
            implies !v1.nodes.dom().contains((#[trigger] txs.skip(1)[i]).id) by {
            assert(txs.skip(1)[i] == txs[i + 1]);
            assert(txs[i + 1].id != t.id);
            assert(!v.nodes.dom().contains(txs[i + 1].id));
        }
        assert forall |i: int, j: int| 0 <= i < j < txs.skip(1).len()
            implies txs.skip(1)[i].id != txs.skip(1)[j].id by {
            assert(txs.skip(1)[i] == txs[i + 1]);
            assert(txs.skip(1)[j] == txs[j + 1]);
        }
        assert forall |i: int, k: int|
            0 <= i < txs.skip(1).len() && 0 <= k < txs.skip(1)[i].dependencies.len()
            implies v1.nodes.dom().contains(#[trigger] txs.skip(1)[i].dependencies[k])
                || (exists |j: int| 0 <= j < i
                    && txs.skip(1)[i].dependencies[k] == (#[trigger] txs.skip(1)[j]).id) by {
            assert(txs.skip(1)[i] == txs[i + 1]);
            let d = txs[i + 1].dependencies[k];
            if !v.nodes.dom().contains(d) {
                let j = choose |j: int| 0 <= j < i + 1 && d == (#[trigger] txs[j]).id;
                if j == 0 {
                    assert(v1.nodes.dom().contains(d));
                } else {
                    assert(txs.skip(1)[j - 1] == txs[j]);
                    assert(txs.skip(1)[i].dependencies[k] == txs.skip(1)[j - 1].id);
                }
            }
        }
        assert forall |x: Seq<char>| #[trigger] rank1.dom().contains(x) implies rank1[x] < r + 1 by {
            if x != t.id {
                assert(rank.dom().contains(x));
            }
        }
        assert forall |k: Seq<char>| #[trigger] v1.nodes.dom().contains(k)
            implies rank1.dom().contains(k) by {
            if k != t.id {
                assert(v.nodes.dom().contains(k));
            }
        }
        lemma_add_all_preserves(v1, txs.skip(1), rank1, r + 1);
        assert(add_all(v, txs) == add_all(v1, txs.skip(1)));
    }
}

/// Liveness, end to end: submit any transaction batch in a topological
/// order to an idle, empty scheduler with at least one dispatch slot, and
/// as many ticks as there are transactions — each with no processing
/// failure — leave every node processed: repeated polling of the stats
/// eventually reports no pending node.
pub proof fn lemma_topological_liveness(v0: DagView, txs: Seq<TxView>, n: nat)
    requires
        wf_state(v0),
        v0.nodes.dom() == Set::<Seq<char>>::empty(),
        v0.max_parallel >= 1,
        topological(txs),
        n >= txs.len(),
    ensures
        all_processed(run_ticks(add_all(v0, txs), n).nodes),
{
    assert(v0.queue.len() == 0) by {
        if v0.queue.len() > 0 {
            assert(v0.nodes.dom().contains(v0.queue[0]));
        }
    }
    let rank0 = Map::<Seq<char>, nat>::empty();
    assert forall |i: int, k: int|
        0 <= i < txs.len() && 0 <= k < txs[i].dependencies.len()
        implies v0.nodes.dom().contains(#[trigger] txs[i].dependencies[k])
            || (exists |j: int| 0 <= j < i && txs[i].dependencies[k] == (#[trigger] txs[j]).id) by {
        let j = choose |j: int| 0 <= j < i && (#[trigger] txs[i].dependencies[k]) == txs[j].id;
    }
    lemma_add_all_preserves(v0, txs, rank0, 1);
    let vf = add_all(v0, txs);
    let rank2 = choose |rank2: Map<Seq<char>, nat>| #[trigger] ranked(vf.nodes, rank2);
    assert(processed_ids(vf.nodes) =~= Set::empty());
    lemma_liveness(vf, rank2, n);
}

/// `k` stands in no node's dependent list: its incoming link was never
/// recorded, so no completion can ever re-evaluate it.
pub open spec fn unlinked(g: Map<Seq<char>, NodeView>, k: Seq<char>) -> bool {
    forall |d: Seq<char>, i: int|
        g.dom().contains(d) && 0 <= i < g[d].dependents.len()
        ==> (#[trigger] g[d].dependents[i]) != k
}

/// One tick cannot touch an unprocessed, unqueued node that stands in no
/// dependent list: it is neither dispatched nor admitted.
proof fn lemma_tick_stuck(v: DagView, k: Seq<char>)
    requires
        v.nodes.dom().contains(k),
        !v.nodes[k].processed,
        !v.queue.contains(k),
        unlinked(v.nodes, k),
    ensures
        tick_step(v).nodes.dom().contains(k),
        !tick_step(v).nodes[k].processed,
        !tick_step(v).queue.contains(k),
        unlinked(tick_step(v).nodes, k),
{
    let b = batch_len(v) as int;
    let batch = v.queue.take(b);
    let rest = v.queue.skip(b);
    let rs = all_ok(batch);
    let gq = run_outcomes(v.nodes, rest, rs);
    lemma_run_frame(v.nodes, rest, rs);
    assert(tick_step(v).nodes == gq.0);
    assert(tick_step(v).queue == gq.1);
    // the batch names only queued identifiers, and k is not queued
    if gq.0[k].processed {
        let i = choose |i: int| 0 <= i < rs.len() && rs[i].0 == k;
        assert(rs[i] == (batch[i], true));
        assert(v.queue[i] == k);
        assert(v.queue.contains(k));
    }
    // k can only be admitted out of a dependent list, and it is in none
    if gq.1.contains(k) {
        if rest.contains(k) {
            let j = choose |j: int| 0 <= j < rest.len() && rest[j] == k;
            assert(v.queue[b + j] == k);
            assert(v.queue.contains(k));
        } else {
            let d = choose |d: Seq<char>| #[trigger] v.nodes.dom().contains(d)
                && v.nodes[d].dependents.contains(k);
            let i = choose |i: int| 0 <= i < v.nodes[d].dependents.len()
                && v.nodes[d].dependents[i] == k;
        }
    }
    // the dependent lists themselves are untouched
    assert forall |d: Seq<char>, i: int|
        gq.0.dom().contains(d) && 0 <= i < gq.0[d].dependents.len()
        implies (#[trigger] gq.0[d].dependents[i]) != k by {
        assert(v.nodes.dom().contains(d));
        assert(gq.0[d].dependents == v.nodes[d].dependents);
    }
}

/// A processed node stays processed through any number of ticks.
proof fn lemma_processed_stays(v: DagView, k: Seq<char>, n: nat)
    requires
        v.nodes.dom().contains(k),
        v.nodes[k].processed,
    ensures
        run_ticks(v, n).nodes.dom().contains(k),
        run_ticks(v, n).nodes[k].processed,
    decreases n,
{
    if n > 0 {
        let b = batch_len(v) as int;
        lemma_run_frame(v.nodes, v.queue.skip(b), all_ok(v.queue.take(b)));
        lemma_processed_stays(tick_step(v), k, (n - 1) as nat);
    }
}

/// A queued node is processed once enough ticks have run: the dispatcher
/// pops at least one identifier per tick while its slot count is positive,
/// and admission only appends, so position `p` is dispatched within `p + 1`
/// ticks and marked then.
proof fn lemma_queued_gets_processed(v: DagView, x: Seq<char>, p: int, n: nat)
    requires
        v.max_parallel >= 1,
        0 <= p < v.queue.len(),
        v.queue[p] == x,
        v.nodes.dom().contains(x),
    ensures
        run_ticks(v, n).nodes.dom().contains(x),
        n > p ==> run_ticks(v, n).nodes[x].processed,
    decreases n,
{
    if n > 0 {
        let v1 = tick_step(v);
        let b = batch_len(v) as int;
        let batch = v.queue.take(b);
        let rest = v.queue.skip(b);
        let rs = all_ok(batch);
        lemma_run_frame(v.nodes, rest, rs);
        assert(b >= 1);
        if p < b {
            assert(rs[p] == (batch[p], true));
            assert(batch[p] == x);
            assert(v1.nodes[x].processed);
            lemma_processed_stays(v1, x, (n - 1) as nat);
        } else {
            assert(rest[p - b] == v.queue[p]);
            assert(v1.queue[p - b] == x);
            assert(v1.nodes.dom().contains(x));
            lemma_queued_gets_processed(v1, x, p - b, (n - 1) as nat);
        }
        assert(run_ticks(v, n) == run_ticks(v1, (n - 1) as nat));
    }
}

/// The lost-link behaviour is permanent: a node that was inserted before
/// its dependency — so no dependent link was recorded for it — and that
/// never entered the ready queue stays unprocessed through any number of
/// ticks.
pub proof fn lemma_stuck_forever(v: DagView, k: Seq<char>, n: nat)
    requires
        v.nodes.dom().contains(k),
        !v.nodes[k].processed,
        !v.queue.contains(k),
        unlinked(v.nodes, k),
    ensures
        run_ticks(v, n).nodes.dom().contains(k),
        !run_ticks(v, n).nodes[k].processed,
        !run_ticks(v, n).queue.contains(k),
        unlinked(run_ticks(v, n).nodes, k),
    decreases n,
{
    if n > 0 {
        lemma_tick_stuck(v, k);
        lemma_stuck_forever(tick_step(v), k, (n - 1) as nat);
    }
}

/// The out-of-order regression, end to end: submit a transaction whose
/// every dependency names one identifier not yet inserted, then insert
/// that dependency.  The late insertion does not repair the link, so the
/// dependent stays unprocessed after arbitrarily many ticks, whatever
/// becomes of the dependency itself.
pub proof fn lemma_out_of_order_stuck(v: DagView, tb: TxView, ta: TxView, n: nat)
    requires
        wf_state(v),
        !v.nodes.dom().contains(ta.id),
        !v.nodes.dom().contains(tb.id),
        ta.id != tb.id,
        tb.dependencies.len() > 0,
        forall |i: int| 0 <= i < tb.dependencies.len()
            ==> (#[trigger] tb.dependencies[i]) == ta.id,
        unlinked(v.nodes, tb.id),
    ensures
        ({ let v2 = add_step(add_step(v, tb), ta);
           let vn = run_ticks(v2, n);
           vn.nodes.dom().contains(tb.id) && !vn.nodes[tb.id].processed
        }),
        ({ let v2 = add_step(add_step(v, tb), ta);
           let vn = run_ticks(v2, n);
           // while the orphan is stuck, its late-inserted dependency is
           // dispatched and processed once enough ticks have run
           (ta.dependencies.len() == 0 && v.max_parallel >= 1 && n > v.queue.len())
               ==> vn.nodes.dom().contains(ta.id) && vn.nodes[ta.id].processed
        }),
{
    let va = add_step(v, tb);
    let g1 = v.nodes.insert(tb.id, fresh_view(tb));
    let ga = va.nodes;
    lemma_record_links_frame(g1, tb.dependencies, tb.id);
    lemma_record_links_adds(g1, tb.dependencies, tb.id);
    assert(ga.dom().contains(tb.id));
    assert(g1[tb.id] == fresh_view(tb));
    assert(!ga[tb.id].processed);
    assert(va.queue == v.queue);
    if v.queue.contains(tb.id) {
        let i = choose |i: int| 0 <= i < v.queue.len() && v.queue[i] == tb.id;
        assert(v.nodes.dom().contains(tb.id));
    }
    assert(!va.queue.contains(tb.id));
    assert forall |d: Seq<char>, i: int|
        ga.dom().contains(d) && 0 <= i < ga[d].dependents.len()
        implies (#[trigger] ga[d].dependents[i]) != tb.id by {
        assert(g1.dom().contains(d));
        if ga[d].dependents[i] == tb.id {
            assert(ga[d].dependents.contains(tb.id));
            assert(g1[d].dependents.contains(tb.id) || tb.dependencies.contains(d));
            if tb.dependencies.contains(d) {
                let j = choose |j: int| 0 <= j < tb.dependencies.len()
                    && tb.dependencies[j] == d;
                assert(d == ta.id);
                assert(!g1.dom().contains(ta.id));
            } else {
                if d == tb.id {
                    assert(g1[tb.id].dependents =~= Seq::<Seq<char>>::empty());
                } else {
                    assert(g1[d] == v.nodes[d]);
                    let j = choose |j: int| 0 <= j < v.nodes[d].dependents.len()
                        && v.nodes[d].dependents[j] == tb.id;
                    assert(v.nodes.dom().contains(d));
                }
            }
        }
    }

    let v2 = add_step(va, ta);
    let g3 = ga.insert(ta.id, fresh_view(ta));
    let gb = v2.nodes;
    lemma_record_links_frame(g3, ta.dependencies, ta.id);
    lemma_record_links_adds(g3, ta.dependencies, ta.id);
    assert(g3.dom().contains(tb.id));
    assert(g3[tb.id] == ga[tb.id]);
    assert(gb.dom().contains(tb.id));
    assert(!gb[tb.id].processed);
    if v2.queue.contains(tb.id) {
        lemma_push_contains(va.queue, ta.id, tb.id);
        assert(va.queue.contains(tb.id));
    }
    assert forall |d: Seq<char>, i: int|
        gb.dom().contains(d) && 0 <= i < gb[d].dependents.len()
        implies (#[trigger] gb[d].dependents[i]) != tb.id by {
        assert(g3.dom().contains(d));
        if gb[d].dependents[i] == tb.id {
            assert(gb[d].dependents.contains(tb.id));
            assert(g3[d].dependents.contains(tb.id) || tb.id == ta.id);
            assert(g3[d].dependents.contains(tb.id));
            if d == ta.id {
                assert(g3[ta.id] == fresh_view(ta));
                assert(g3[ta.id].dependents =~= Seq::<Seq<char>>::empty());
            } else {
                assert(g3[d] == ga[d]);
                let j = choose |j: int| 0 <= j < ga[d].dependents.len()
                    && ga[d].dependents[j] == tb.id;
                assert(ga.dom().contains(d));
            }
        }
    }
    lemma_stuck_forever(v2, tb.id, n);
    if ta.dependencies.len() == 0 && v.max_parallel >= 1 && n > v.queue.len() {
        assert(v2.queue == va.queue.push(ta.id));
        assert(v2.queue[v.queue.len() as int] == ta.id);
        assert(v2.nodes.dom().contains(ta.id));
        assert(v2.max_parallel == v.max_parallel);
        lemma_queued_gets_processed(v2, ta.id, v.queue.len() as int, n);
    }
}

} // verus!
