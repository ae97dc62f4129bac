//! The dependency-aware parallel transaction scheduler.
//!
//! [`DAGProcessor`] owns the transaction graph, the ready queue and the
//! concurrency bound.  Every public operation's contract is stated over the
//! abstract state [`DagView`] and the transition functions of
//! [`crate::model`].

use vstd::prelude::*;
use crate::config::NodeSettings;
use crate::graph::{DAGNode, DAGStats, GraphError, NodeView, Transaction, clone_strings, clone_transaction, seq_views, tx_views};
use crate::model::{
    DagView, add_step, admit_cond, all_ok, batch_len, dep_done, deps_satisfied, efficiency_pct,
    enqueue_dependents, fresh_view, mark_one, processed_ids, propagate_from, record_links,
    run_outcomes, tick_step, wf_state,
};
use crate::model::{
    lemma_full_count_means_all, lemma_processed_ids_bound, lemma_processed_ids_insert,
    lemma_reinsert_same_processed, lemma_record_links_frame,
};
use crate::model::{all_processed, all_unprocessed, fully_linked, ranked, sched_inv};
use crate::laws::{lemma_add_laws, lemma_add_ranked, lemma_idle_means_done, lemma_tick_laws};
use crate::trusted::{blake3_hex, blake3_hex_of, dash_get, dash_insert, dash_new, map_entries, now_millis};
use crate::decimal::{dec_of, lemma_dec_of_injective, render_u64};
use crate::node::BenchmarkResults;
use vstd::string::StringExecFns;

verus! {

/// The scheduler: a concurrent graph store, a FIFO ready queue, the
/// snapshot of externally pending transactions, the per-tick concurrency
/// bound, and counters kept in step with the graph.
pub struct DAGProcessor {
    nodes: dashmap::DashMap<String, DAGNode>,
    processing_queue: Vec<String>,
    pending_transactions: Vec<Transaction>,
    max_parallel_tasks: usize,
    total_nodes: usize,
    processed_count: usize,
}

impl View for DAGProcessor {
    type V = DagView;

    closed spec fn view(&self) -> DagView {
        DagView {
            nodes: map_entries(self.nodes),
            queue: seq_views(self.processing_queue@),
            pending: tx_views(self.pending_transactions@),
            max_parallel: self.max_parallel_tasks as nat,
        }
    }
}

impl DAGProcessor {
    /// The internal consistency of a scheduler value: the abstract state is
    /// well formed and the counters agree with the graph.
    pub closed spec fn well_formed(&self) -> bool {
        &&& wf_state(self@)
        &&& self.total_nodes as nat == self@.nodes.dom().len()
        &&& self.processed_count as nat == processed_ids(self@.nodes).len()
    }

    /// A fresh scheduler: empty graph, empty queue, no pending
    /// transactions, and the concurrency bound taken from the settings.
    pub fn new(settings: &NodeSettings) -> (p: DAGProcessor)
        ensures
            p.well_formed(),
            p@.nodes =~= Map::empty(),
            p@.queue =~= Seq::empty(),
            p@.pending =~= Seq::empty(),
            p@.max_parallel == settings.max_concurrent_tasks as nat,
    {
        let p = DAGProcessor {
            nodes: dash_new(),
            processing_queue: Vec::new(),
            pending_transactions: Vec::new(),
            max_parallel_tasks: settings.max_concurrent_tasks,
            total_nodes: 0,
            processed_count: 0,
        };
        proof {
            assert(p@.queue =~= Seq::empty());
            assert(p@.pending =~= Seq::empty());
            assert(processed_ids(p@.nodes) =~= Set::empty());
        }
        p
    }

    /// A snapshot of the graph and queue sizes.  The parallel-efficiency
    /// figure is the processed share of all nodes as a whole percentage.
    pub fn get_dag_stats(&self) -> (s: DAGStats)
        requires
            self.well_formed(),
        ensures
            s.total_nodes as nat == self@.nodes.dom().len(),
            s.processed_nodes as nat == processed_ids(self@.nodes).len(),
            s.pending_nodes as nat == self@.nodes.dom().len() - processed_ids(self@.nodes).len(),
            s.queue_size == self@.queue.len(),
            s.parallel_efficiency as nat == efficiency_pct(
                processed_ids(self@.nodes).len(),
                self@.nodes.dom().len(),
            ),
            s.parallel_efficiency <= 100,
    {
        proof {
            lemma_processed_ids_bound(self@.nodes);
        }
        let parallel_efficiency: u64 = if self.total_nodes > 0 {
            let p = self.processed_count as u128;
            let t = self.total_nodes as u128;
            proof {
                assert((p as int) * 100 / (t as int) <= 100
                    && (p as int) * 100 <= (t as int) * 100
                    && (t as int) * 100 <= u128::MAX as int) by (nonlinear_arith)
                    requires
                        (p as int) <= (t as int),
                        0 < (t as int),
                        (t as int) <= usize::MAX as int;
            }
            ((p * 100) / t) as u64
        } else {
            0
        };
        DAGStats {
            total_nodes: self.total_nodes,
            processed_nodes: self.processed_count,
            pending_nodes: self.total_nodes - self.processed_count,
            queue_size: self.processing_queue.len(),
            parallel_efficiency,
        }
    }

    /// Lowers the per-tick concurrency bound: a one-way signal, so the new
    /// bound never exceeds the old one.  A bound of two or more is halved;
    /// a bound of one is kept (the dispatcher can still drain the queue)
    /// and a bound of zero stays zero (a dispatcher that was configured
    /// off stays off).  The graph and the queue are untouched.
    pub fn reduce_intensity(&mut self)
        requires
            old(self).well_formed(),
        ensures
            final(self).well_formed(),
            final(self)@.max_parallel == if old(self)@.max_parallel >= 2 {
                old(self)@.max_parallel / 2
            } else {
                old(self)@.max_parallel
            },
            final(self)@.max_parallel <= old(self)@.max_parallel,
            final(self)@.nodes == old(self)@.nodes,
            final(self)@.queue == old(self)@.queue,
            final(self)@.pending == old(self)@.pending,
    {
        if self.max_parallel_tasks >= 2 {
            self.max_parallel_tasks = self.max_parallel_tasks / 2;
        }
        proof {
            assert(self@.nodes == old(self)@.nodes);
            assert(self@.queue == old(self)@.queue);
            assert(wf_state(self@));
            assert(self.total_nodes as nat == self@.nodes.dom().len());
            assert(self.processed_count as nat == processed_ids(self@.nodes).len());
        }
    }

    /// A copy of the stored snapshot of not-yet-admitted transactions, the
    /// feed the threat-detection collaborator reads.  No operation of the
    /// scheduler ever appends to this buffer, so the snapshot stays empty
    /// for the life of the value; the buffer is kept because the interface
    /// carries it, and the contract states exactly what it holds.
    pub fn get_pending_transactions(&self) -> (txs: Vec<Transaction>)
        ensures
            tx_views(txs@) == self@.pending,
    {
        let mut txs: Vec<Transaction> = Vec::new();
        let mut i: usize = 0;
        proof {
            assert(tx_views(txs@) =~= tx_views(self.pending_transactions@).take(0));
        }
        while i < self.pending_transactions.len()
            invariant
                i <= self.pending_transactions.len(),
                txs@.len() == i,
                tx_views(txs@) == tx_views(self.pending_transactions@).take(i as int),
            decreases self.pending_transactions.len() - i,
        {
            let ghost txs_pre = txs@;
            let c = clone_transaction(&self.pending_transactions[i]);
            proof {
                assert(c@ == self.pending_transactions@[i as int]@);
            }
            txs.push(c);
            i = i + 1;
            proof {
                let o = self.pending_transactions@;
                assert(txs@ == txs_pre.push(c));
                assert(txs@.len() == i as int);
                assert(tx_views(txs@).len() == i as int);
                assert forall |j: int| 0 <= j < i as int
                    implies tx_views(txs@)[j] == tx_views(o).take(i as int)[j] by {
                    assert(tx_views(o)[j] == o[j]@);
                    if j < i as int - 1 {
                        assert(txs@[j] == txs_pre[j]);
                        assert(tx_views(txs_pre)[j] == tx_views(o).take(i as int - 1)[j]);
                    } else {
                        assert(txs@[j] == c);
                    }
                }
                assert(tx_views(txs@)
                    =~= tx_views(self.pending_transactions@).take(i as int));
            }
        }
        proof {
            assert(tx_views(self.pending_transactions@)
                .take(self.pending_transactions@.len() as int)
                =~= self@.pending);
        }
        txs
    }

    /// Sets the processed flag of `id`; the flag is monotonic and marking a
    /// node twice changes nothing.  Fails with `NotFound` when the
    /// identifier is absent, leaving the state unchanged.
    pub fn mark_processed(&mut self, id: &String) -> (r: Result<(), GraphError>)
        requires
            old(self).well_formed(),
        ensures
            final(self).well_formed(),
            final(self)@.nodes == mark_one(old(self)@.nodes, id@),
            final(self)@.queue == old(self)@.queue,
            final(self)@.pending == old(self)@.pending,
            final(self)@.max_parallel == old(self)@.max_parallel,
            r is Ok <==> old(self)@.nodes.dom().contains(id@),
            r matches Err(e) ==> e == GraphError::NotFound,
    {
        match dash_get(&self.nodes, id) {
            Some(node) => {
                let was_processed = node.processed;
                let node = DAGNode { processed: true, ..node };
                proof {
                    lemma_processed_ids_bound(self@.nodes);
                    lemma_processed_ids_insert(self@.nodes, id@, node@);
                    if !was_processed {
                        assert(!processed_ids(self@.nodes).contains(id@));
                        vstd::set_lib::lemma_len_subset(
                            processed_ids(self@.nodes).insert(id@),
                            self@.nodes.dom(),
                        );
                    }
                }
                dash_insert(&mut self.nodes, id.clone(), node);
                if !was_processed {
                    self.processed_count = self.processed_count + 1;
                }
                proof {
                    assert(self@.nodes == mark_one(old(self)@.nodes, id@));
                    assert(self@.nodes.dom() =~= old(self)@.nodes.dom());
                    assert(self@.queue == old(self)@.queue);
                    if was_processed {
                        assert(processed_ids(self@.nodes)
                            =~= processed_ids(old(self)@.nodes));
                    } else {
                        assert(processed_ids(self@.nodes)
                            == processed_ids(old(self)@.nodes).insert(id@));
                        assert(processed_ids(self@.nodes).len()
                            == processed_ids(old(self)@.nodes).len() + 1);
                    }
                    assert(wf_state(self@));
                }
                Ok(())
            }
            None => Err(GraphError::NotFound),
        }
    }

    /// The recorded dependents of `id`; `NotFound` when the identifier is
    /// absent.
    pub fn dependents_of(&self, id: &String) -> (r: Result<Vec<String>, GraphError>)
        ensures
            r is Ok <==> self@.nodes.dom().contains(id@),
            r matches Ok(v) ==> seq_views(v@) == self@.nodes[id@].dependents,
            r matches Err(e) ==> e == GraphError::NotFound,
    {
        match dash_get(&self.nodes, id) {
            Some(node) => Ok(clone_strings(&node.dependents)),
            None => Err(GraphError::NotFound),
        }
    }

    /// The declared dependencies of `id`; `NotFound` when the identifier is
    /// absent.
    pub fn dependencies_of(&self, id: &String) -> (r: Result<Vec<String>, GraphError>)
        ensures
            r is Ok <==> self@.nodes.dom().contains(id@),
            r matches Ok(v) ==> seq_views(v@) == self@.nodes[id@].deps,
            r matches Err(e) ==> e == GraphError::NotFound,
    {
        match dash_get(&self.nodes, id) {
            Some(node) => Ok(clone_strings(&node.dependencies)),
            None => Err(GraphError::NotFound),
        }
    }

    /// Whether `id` has been processed; `NotFound` when the identifier is
    /// absent.
    pub fn is_processed(&self, id: &String) -> (r: Result<bool, GraphError>)
        ensures
            r is Ok <==> self@.nodes.dom().contains(id@),
            r matches Ok(b) ==> b == self@.nodes[id@].processed,
            r matches Err(e) ==> e == GraphError::NotFound,
    {
        match dash_get(&self.nodes, id) {
            Some(node) => Ok(node.processed),
            None => Err(GraphError::NotFound),
        }
    }

    /// Whether `id` names a node whose dependencies are all present and
    /// processed.  An absent node, or a dependency that is absent or
    /// unprocessed, makes the answer `false`.
    pub fn are_dependencies_satisfied(&self, id: &String) -> (b: bool)
        ensures
            b == deps_satisfied(self@.nodes, id@),
    {
        match dash_get(&self.nodes, id) {
            Some(node) => {
                let mut i: usize = 0;
                while i < node.dependencies.len()
                    invariant
                        i <= node.dependencies.len(),
                        self@.nodes.dom().contains(id@),
                        node@ == self@.nodes[id@],
                        forall |j: int| 0 <= j < i ==> dep_done(self@.nodes, #[trigger] node@.deps[j]),
                    decreases node.dependencies.len() - i,
                {
                    let d = &node.dependencies[i];
                    proof {
                        assert(d@ == node@.deps[i as int]);
                    }
                    match dash_get(&self.nodes, d) {
                        Some(dep_node) => {
                            if !dep_node.processed {
                                proof {
                                    assert(!dep_done(self@.nodes, node@.deps[i as int]));
                                }
                                return false;
                            }
                        }
                        None => {
                            proof {
                                assert(!dep_done(self@.nodes, node@.deps[i as int]));
                            }
                            return false;
                        }
                    }
                    i = i + 1;
                }
                proof {
                    assert(node@.deps.len() == node.dependencies@.len());
                }
                true
            }
            None => false,
        }
    }

    /// Whether `id` is already in the ready queue.
    fn queue_contains(&self, id: &String) -> (b: bool)
        ensures
            b == self@.queue.contains(id@),
    {
        let mut i: usize = 0;
        while i < self.processing_queue.len()
            invariant
                i <= self.processing_queue.len(),
                forall |j: int| 0 <= j < i ==> self@.queue[j] != id@,
            decreases self.processing_queue.len() - i,
        {
            if self.processing_queue[i] == *id {
                proof {
                    assert(self@.queue[i as int] == id@);
                }
                return true;
            }
            i = i + 1;
        }
        proof {
            if self@.queue.contains(id@) {
                let j = choose |j: int| 0 <= j < self@.queue.len() && self@.queue[j] == id@;
                assert(self@.queue[j] != id@);
            }
        }
        false
    }

    /// Ingestion: stores a node for the transaction (overwriting any node
    /// under the same identifier), records the dependent link on every
    /// dependency already present — a link to an absent dependency is lost,
    /// not deferred — and admits the transaction to the ready queue when it
    /// declares no dependencies.  Never blocks on dependency resolution and
    /// never fails.
    pub fn add_transaction(&mut self, transaction: Transaction) -> (r: Result<(), GraphError>)
        requires
            old(self).well_formed(),
        ensures
            final(self).well_formed(),
            final(self)@ == add_step(old(self)@, transaction@),
            r is Ok,
    {
        let ghost t = transaction@;
        let ghost g1 = old(self)@.nodes.insert(t.id, fresh_view(t));
        let ghost target = record_links(g1, t.dependencies, t.id);
        let id = transaction.id.clone();
        let dep_list = clone_strings(&transaction.dependencies);
        let deps_empty = transaction.dependencies.len() == 0;
        let dag_node = DAGNode {
            dependencies: clone_strings(&transaction.dependencies),
            dependents: Vec::new(),
            processed: false,
            transaction,
        };
        proof {
            assert(dag_node@.dependents =~= Seq::empty());
            assert(dag_node@ == fresh_view(t));
            lemma_processed_ids_bound(old(self)@.nodes);
            lemma_processed_ids_insert(old(self)@.nodes, t.id, fresh_view(t));
            assert(old(self)@.nodes.insert(t.id, fresh_view(t)).dom()
                =~= old(self)@.nodes.dom().insert(t.id));
        }
        let prev = dash_insert(&mut self.nodes, id.clone(), dag_node);
        match &prev {
            Option::Some(p) => {
                proof {
                    assert(old(self)@.nodes.dom().contains(t.id));
                    assert(old(self)@.nodes.dom().insert(t.id) =~= old(self)@.nodes.dom());
                    if p@.processed {
                        assert(processed_ids(old(self)@.nodes).contains(t.id));
                        assert(processed_ids(old(self)@.nodes).remove(t.id).len()
                            == processed_ids(old(self)@.nodes).len() - 1);
                    } else {
                        assert(processed_ids(old(self)@.nodes).remove(t.id)
                            =~= processed_ids(old(self)@.nodes));
                    }
                }
                if p.processed {
                    self.processed_count = self.processed_count - 1;
                }
            }
            Option::None => {
                proof {
                    assert(!old(self)@.nodes.dom().contains(t.id));
                    assert(old(self)@.nodes.dom().insert(t.id).len()
                        == old(self)@.nodes.dom().len() + 1);
                    assert(processed_ids(old(self)@.nodes).remove(t.id)
                        =~= processed_ids(old(self)@.nodes));
                }
                self.total_nodes = self.total_nodes + 1;
            }
        }
        proof {
            assert(self@.nodes == g1);
            assert(self.total_nodes as nat == g1.dom().len());
            assert(self.processed_count as nat == processed_ids(g1).len());
            assert(seq_views(dep_list@) == t.dependencies);
            assert(t.dependencies.skip(0) =~= t.dependencies);
        }
        let mut i: usize = 0;
        while i < dep_list.len()
            invariant
                i <= dep_list.len(),
                seq_views(dep_list@) == t.dependencies,
                dep_list@.len() == t.dependencies.len(),
                id@ == t.id,
                record_links(self@.nodes, t.dependencies.skip(i as int), t.id) == target,
                self@.nodes.dom() == g1.dom(),
                self@.queue == old(self)@.queue,
                self@.pending == old(self)@.pending,
                self@.max_parallel == old(self)@.max_parallel,
                self.total_nodes as nat == self@.nodes.dom().len(),
                self.processed_count as nat == processed_ids(self@.nodes).len(),
                self@.nodes.dom().finite(),
            decreases dep_list.len() - i,
        {
            let d = &dep_list[i];
            let ghost g_cur = self@.nodes;
            proof {
                assert(d@ == t.dependencies[i as int]);
                assert(t.dependencies.skip(i as int)[0] == t.dependencies[i as int]);
                assert(t.dependencies.skip(i as int).skip(1) =~= t.dependencies.skip(i as int + 1));
            }
            match dash_get(&self.nodes, d) {
                Some(dep_node) => {
                    let mut dep_node = dep_node;
                    dep_node.dependents.push(id.clone());
                    proof {
                        assert(dep_node@.dependents =~= g_cur[d@].dependents.push(t.id));
                        assert(dep_node@ == (NodeView {
                            dependents: g_cur[d@].dependents.push(t.id),
                            ..g_cur[d@]
                        }));
                        lemma_reinsert_same_processed(g_cur, d@, dep_node@);
                    }
                    dash_insert(&mut self.nodes, d.clone(), dep_node);
                }
                None => {}
            }
            i = i + 1;
        }
        proof {
            assert(t.dependencies.skip(dep_list@.len() as int) =~= Seq::empty());
            assert(self@.nodes == target);
        }
        if deps_empty {
            self.processing_queue.push(id);
            proof {
                assert(self@.queue =~= old(self)@.queue.push(t.id));
            }
        }
        proof {
            lemma_record_links_frame(g1, t.dependencies, t.id);
            assert(self@ == add_step(old(self)@, t));
            assert(wf_state(self@));
        }
        Ok(())
    }

    /// Pops up to `max_parallel_tasks` identifiers from the front of the
    /// ready queue, in FIFO order.  The graph is untouched.
    pub fn get_ready_transactions(&mut self) -> (ready: Vec<String>)
        requires
            old(self).well_formed(),
        ensures
            final(self).well_formed(),
            final(self)@.nodes == old(self)@.nodes,
            final(self)@.pending == old(self)@.pending,
            final(self)@.max_parallel == old(self)@.max_parallel,
            seq_views(ready@) == old(self)@.queue.take(batch_len(old(self)@) as int),
            final(self)@.queue == old(self)@.queue.skip(batch_len(old(self)@) as int),
            ready@.len() as nat == batch_len(old(self)@),
    {
        let ghost q0 = old(self).processing_queue@;
        let count = if self.processing_queue.len() <= self.max_parallel_tasks {
            self.processing_queue.len()
        } else {
            self.max_parallel_tasks
        };
        proof {
            assert(count as nat == batch_len(old(self)@));
            assert(q0.skip(0) =~= q0);
        }
        let mut ready: Vec<String> = Vec::new();
        let mut i: usize = 0;
        while i < count
            invariant
                i <= count,
                count <= q0.len(),
                ready@.len() == i,
                ready@ == q0.take(i as int),
                self.processing_queue@ == q0.skip(i as int),
                self@.nodes == old(self)@.nodes,
                self@.pending == old(self)@.pending,
                self@.max_parallel == old(self)@.max_parallel,
                self.total_nodes as nat == self@.nodes.dom().len(),
                self.processed_count as nat == processed_ids(self@.nodes).len(),
            decreases count - i,
        {
            let ghost q_pre = self.processing_queue@;
            let id = self.processing_queue.remove(0);
            ready.push(id);
            i = i + 1;
            proof {
                assert(q_pre[0] == q0[i - 1]);
                assert(self.processing_queue@ =~= q0.skip(i as int));
                assert(ready@ =~= q0.take(i as int));
            }
        }
        proof {
            assert(seq_views(ready@) =~= seq_views(q0).take(count as int));
            assert(seq_views(self.processing_queue@) =~= seq_views(q0).skip(count as int));
            assert(wf_state(self@));
        }
        ready
    }

    /// Completion of one successful transaction: marks it processed and
    /// admits each of its recorded dependents whose dependencies are now
    /// all processed, skipping dependents that are already processed or
    /// already queued.  An absent identifier changes nothing.
    fn apply_success(&mut self, id: &String)
        requires
            old(self).well_formed(),
        ensures
            final(self).well_formed(),
            final(self)@.nodes == mark_one(old(self)@.nodes, id@),
            final(self)@.queue == propagate_from(
                mark_one(old(self)@.nodes, id@),
                old(self)@.queue,
                id@,
            ),
            final(self)@.pending == old(self)@.pending,
            final(self)@.max_parallel == old(self)@.max_parallel,
    {
        let ghost g1 = mark_one(old(self)@.nodes, id@);
        match dash_get(&self.nodes, id) {
            Some(node) => {
                let was_processed = node.processed;
                let dependents = clone_strings(&node.dependents);
                let node = DAGNode { processed: true, ..node };
                proof {
                    lemma_processed_ids_bound(self@.nodes);
                    lemma_processed_ids_insert(self@.nodes, id@, node@);
                    if !was_processed {
                        assert(!processed_ids(self@.nodes).contains(id@));
                        vstd::set_lib::lemma_len_subset(
                            processed_ids(self@.nodes).insert(id@),
                            self@.nodes.dom(),
                        );
                    }
                }
                dash_insert(&mut self.nodes, id.clone(), node);
                if !was_processed {
                    self.processed_count = self.processed_count + 1;
                }
                proof {
                    assert(self@.nodes == g1);
                    assert(self@.nodes.dom() =~= old(self)@.nodes.dom());
                    if was_processed {
                        assert(processed_ids(self@.nodes)
                            =~= processed_ids(old(self)@.nodes));
                    }
                    assert(seq_views(dependents@) == g1[id@].dependents);
                    assert(g1[id@].dependents.skip(0) =~= g1[id@].dependents);
                }
                let ghost q0 = old(self)@.queue;
                let ghost dl = g1[id@].dependents;
                let mut j: usize = 0;
                while j < dependents.len()
                    invariant
                        j <= dependents.len(),
                        dependents@.len() == dl.len(),
                        seq_views(dependents@) == dl,
                        self@.nodes == g1,
                        enqueue_dependents(g1, self@.queue, dl.skip(j as int))
                            == enqueue_dependents(g1, q0, dl),
                        self@.pending == old(self)@.pending,
                        self@.max_parallel == old(self)@.max_parallel,
                        self.total_nodes as nat == self@.nodes.dom().len(),
                        self.processed_count as nat == processed_ids(self@.nodes).len(),
                        wf_state(self@),
                    decreases dependents.len() - j,
                {
                    let d = &dependents[j];
                    proof {
                        assert(d@ == dl[j as int]);
                        assert(dl.skip(j as int)[0] == dl[j as int]);
                        assert(dl.skip(j as int).skip(1) =~= dl.skip(j as int + 1));
                    }
                    let present_unprocessed = match dash_get(&self.nodes, d) {
                        Some(n) => !n.processed,
                        None => false,
                    };
                    let should_enqueue = present_unprocessed
                        && self.are_dependencies_satisfied(d)
                        && !self.queue_contains(d);
                    proof {
                        assert(should_enqueue == admit_cond(g1, self@.queue, d@));
                    }
                    if should_enqueue {
                        let ghost q_pre = self@.queue;
                        self.processing_queue.push(d.clone());
                        proof {
                            assert(self@.queue =~= q_pre.push(d@));
                        }
                    }
                    j = j + 1;
                }
                proof {
                    assert(dl.skip(dependents@.len() as int) =~= Seq::empty());
                    assert(self@.queue == propagate_from(g1, q0, id@));
                }
            }
            None => {
                proof {
                    assert(mark_one(old(self)@.nodes, id@) == old(self)@.nodes);
                    assert(propagate_from(g1, old(self)@.queue, id@) == old(self)@.queue);
                }
            }
        }
    }

    /// Applies a batch of per-transaction outcomes, front to back: each
    /// success is marked processed and its completion propagated; each
    /// failure is left unprocessed forever — no retry, no requeue.
    pub fn complete_batch(&mut self, outcomes: &Vec<(String, bool)>)
        requires
            old(self).well_formed(),
        ensures
            final(self).well_formed(),
            final(self)@.nodes == run_outcomes(
                old(self)@.nodes,
                old(self)@.queue,
                outcome_views(outcomes@),
            ).0,
            final(self)@.queue == run_outcomes(
                old(self)@.nodes,
                old(self)@.queue,
                outcome_views(outcomes@),
            ).1,
            final(self)@.pending == old(self)@.pending,
            final(self)@.max_parallel == old(self)@.max_parallel,
    {
        let ghost g0 = old(self)@.nodes;
        let ghost q0 = old(self)@.queue;
        let ghost ov = outcome_views(outcomes@);
        proof {
            assert(ov.skip(0) =~= ov);
        }
        let mut i: usize = 0;
        while i < outcomes.len()
            invariant
                i <= outcomes.len(),
                outcomes@.len() == ov.len(),
                ov == outcome_views(outcomes@),
                self.well_formed(),
                run_outcomes(self@.nodes, self@.queue, ov.skip(i as int))
                    == run_outcomes(g0, q0, ov),
                self@.pending == old(self)@.pending,
                self@.max_parallel == old(self)@.max_parallel,
            decreases outcomes.len() - i,
        {
            proof {
                assert(ov[i as int] == (outcomes@[i as int].0@, outcomes@[i as int].1));
                assert(ov.skip(i as int)[0] == ov[i as int]);
                assert(ov.skip(i as int).skip(1) =~= ov.skip(i as int + 1));
            }
            if outcomes[i].1 {
                self.apply_success(&outcomes[i].0);
            }
            i = i + 1;
        }
        proof {
            assert(ov.skip(outcomes@.len() as int) =~= Seq::empty());
        }
    }

    /// One tick of the dispatcher with the built-in always-succeeding
    /// operation: drains up to the concurrency bound from the front of the
    /// ready queue — never more, whatever the queue holds — processes the
    /// batch, and propagates every completion.  Returns the dispatched
    /// identifiers in dispatch order.
    pub fn tick(&mut self) -> (batch: Vec<String>)
        requires
            old(self).well_formed(),
        ensures
            final(self).well_formed(),
            final(self)@ == tick_step(old(self)@),
            seq_views(batch@) == old(self)@.queue.take(batch_len(old(self)@) as int),
            batch@.len() as nat <= old(self)@.max_parallel,
            batch@.len() as nat == batch_len(old(self)@),
    {
        let ghost v0 = old(self)@;
        let batch = self.get_ready_transactions();
        let ghost bv = seq_views(batch@);
        let ghost g0 = self@.nodes;
        let ghost q0 = self@.queue;
        proof {
            assert(all_ok(bv).skip(0) =~= all_ok(bv));
        }
        let mut i: usize = 0;
        while i < batch.len()
            invariant
                i <= batch.len(),
                batch@.len() == bv.len(),
                bv == seq_views(batch@),
                self.well_formed(),
                run_outcomes(self@.nodes, self@.queue, all_ok(bv).skip(i as int))
                    == run_outcomes(g0, q0, all_ok(bv)),
                self@.pending == v0.pending,
                self@.max_parallel == v0.max_parallel,
            decreases batch.len() - i,
        {
            proof {
                assert(all_ok(bv)[i as int] == (bv[i as int], true));
                assert(bv[i as int] == batch@[i as int]@);
                assert(all_ok(bv).skip(i as int)[0] == all_ok(bv)[i as int]);
                assert(all_ok(bv).skip(i as int).skip(1) =~= all_ok(bv).skip(i as int + 1));
            }
            self.apply_success(&batch[i]);
            i = i + 1;
        }
        proof {
            assert(all_ok(bv).skip(batch@.len() as int) =~= Seq::empty());
            assert(self@ == tick_step(v0));
        }
        batch
    }

    /// Whether the ready queue is drained and every node in the graph is
    /// processed: the termination condition of a benchmark run.
    pub fn all_transactions_processed(&self) -> (b: bool)
        requires
            self.well_formed(),
        ensures
            b == (self@.queue.len() == 0
                && processed_ids(self@.nodes).len() == self@.nodes.dom().len()),
    {
        self.processing_queue.len() == 0 && self.processed_count == self.total_nodes
    }

    /// A diagnostic answer to a scheduling-speed challenge, derived from
    /// the challenge data alone and free of side effects: a fixed tag
    /// followed by the BLAKE3 digest of the data in hexadecimal.
    pub fn solve_speed_challenge(&self, challenge_data: &str) -> (r: Option<String>)
        ensures
            r is Some,
            r matches Some(s) ==> s@ == "dag_solution_"@ + blake3_hex_of(challenge_data@),
    {
        let digest = blake3_hex(challenge_data);
        let solution = String::from_str("dag_solution_").concat(digest.as_str());
        Some(solution)
    }

    /// Runs a scheduling benchmark on a fresh scheduler: synthesizes
    /// `tx_count` test transactions — a mix of independent and chained
    /// ones — submits them all, ticks until the graph reports full
    /// completion (the submission order is topological and every operation
    /// succeeds, so this terminates), and reports throughput and a
    /// parallel-efficiency estimate from the elapsed wall time.
    ///
    /// Each run wants a scheduler of its own, stated by the empty-graph
    /// precondition: completion polling only terminates on a graph with no
    /// stuck node, and a second run's synthetic identifiers would collide
    /// with and overwrite the first run's nodes.
    pub fn benchmark(&mut self, tx_count: usize) -> (r: BenchmarkResults)
        requires
            old(self).well_formed(),
            old(self)@.nodes.dom() == Set::<Seq<char>>::empty(),
            old(self)@.max_parallel >= 1,
            tx_count <= 0xffff_ffff,
        ensures
            final(self).well_formed(),
            all_processed(final(self)@.nodes),
            final(self)@.queue.len() == 0,
            final(self)@.nodes.dom().len() == tx_count as nat,
            r.accuracy == 100,
            r.parallel_efficiency <= 100,
            tx_count > 0 ==> r.throughput_tps >= 1,
            exists |e: nat| e >= 1 && r == spec_benchmark_results(tx_count as nat, e),
    {
        let start = now_millis();
        let txs = generate_test_transactions(tx_count);
        let ghost mut rank: Map<Seq<char>, nat> = Map::empty();
        let ghost max0 = old(self)@.max_parallel;
        proof {
            assert(old(self)@.queue.len() == 0) by {
                if old(self)@.queue.len() > 0 {
                    assert(old(self)@.nodes.dom().contains(old(self)@.queue[0]));
                }
            }
        }
        let mut txs = txs;
        let mut i: usize = 0;
        while i < txs.len()
            invariant
                i <= txs.len(),
                txs@.len() == tx_count,
                tx_count <= 0xffff_ffff,
                forall |j: int| 0 <= j < tx_count ==> {
                    &&& (#[trigger] txs@[j])@.id == test_id(j as nat)
                    &&& txs@[j]@.dependencies == test_deps(j as nat)
                },
                self.well_formed(),
                sched_inv(self@),
                all_unprocessed(self@.nodes),
                fully_linked(self@.nodes),
                ranked(self@.nodes, rank),
                self@.nodes.dom().len() == i as nat,
                forall |k: Seq<char>| #[trigger] self@.nodes.dom().contains(k)
                    <==> (exists |j: int| 0 <= j < i && k == #[trigger] test_id(j as nat)),
                forall |j: int| 0 <= j < i ==> rank.dom().contains(#[trigger] test_id(j as nat))
                    && rank[test_id(j as nat)] == j as nat,
                forall |j: int| 0 <= j < i
                    ==> self@.nodes[#[trigger] test_id(j as nat)].deps == test_deps(j as nat),
                self@.max_parallel == max0,
            decreases txs.len() - i,
        {
            let ghost v_pre = self@;
            let tx = clone_transaction(&txs[i]);
            proof {
                assert(tx@.id == test_id(i as nat));
                assert(tx@.dependencies == test_deps(i as nat));
                // the minted identifier is fresh
                if v_pre.nodes.dom().contains(test_id(i as nat)) {
                    let j = choose |j: int| 0 <= j < i && test_id(i as nat) == #[trigger] test_id(j as nat);
                    lemma_test_id_injective(i as nat, j as nat);
                }
                // its dependencies are present and rank below it
                assert forall |ix: int| 0 <= ix < tx@.dependencies.len()
                    implies v_pre.nodes.dom().contains(#[trigger] tx@.dependencies[ix])
                        && rank[tx@.dependencies[ix]] < i as nat by {
                    assert(tx@.dependencies[ix] == test_id((i - 1) as nat));
                    assert(0 <= i - 1 < i);
                }
                // no earlier node names it as a dependency
                assert forall |k: Seq<char>, ix: int|
                    v_pre.nodes.dom().contains(k) && 0 <= ix < v_pre.nodes[k].deps.len()
                    implies (#[trigger] v_pre.nodes[k].deps[ix]) != test_id(i as nat) by {
                    let j = choose |j: int| 0 <= j < i && k == #[trigger] test_id(j as nat);
                    assert(v_pre.nodes[k].deps == test_deps(j as nat));
                    if v_pre.nodes[k].deps[ix] == test_id(i as nat) {
                        assert(v_pre.nodes[k].deps[ix] == test_id((j - 1) as nat));
                        lemma_test_id_injective((j - 1) as nat, i as nat);
                    }
                }
            }
            let result = self.add_transaction(tx);
            proof {
                lemma_add_laws(v_pre, txs@[i as int]@);
                lemma_add_ranked(v_pre, txs@[i as int]@, rank, i as nat);
                rank = rank.insert(test_id(i as nat), i as nat);
                let g1 = v_pre.nodes.insert(test_id(i as nat), fresh_view(txs@[i as int]@));
                lemma_record_links_frame(g1, test_deps(i as nat), test_id(i as nat));
                assert(self@.nodes.dom() =~= v_pre.nodes.dom().insert(test_id(i as nat)));
                assert(self@.nodes.dom().len() == i as nat + 1);
                // the new node carries exactly the synthetic dependency list
                assert(g1.dom().contains(test_id(i as nat)));
                assert(g1[test_id(i as nat)] == fresh_view(txs@[i as int]@));
                assert(self@.nodes[test_id(i as nat)].deps == g1[test_id(i as nat)].deps);
                assert forall |j: int| 0 <= j < i
                    implies self@.nodes[#[trigger] test_id(j as nat)].deps
                        == test_deps(j as nat) by {
                    if test_id(j as nat) == test_id(i as nat) {
                        lemma_test_id_injective(j as nat, i as nat);
                    }
                    assert(v_pre.nodes.dom().contains(test_id(j as nat)));
                    assert(g1.dom().contains(test_id(j as nat)));
                    assert(g1[test_id(j as nat)] == v_pre.nodes[test_id(j as nat)]);
                    assert(self@.nodes[test_id(j as nat)].deps == g1[test_id(j as nat)].deps);
                }
                assert forall |k: Seq<char>| #[trigger] self@.nodes.dom().contains(k)
                    implies (exists |j: int| 0 <= j <= i && k == #[trigger] test_id(j as nat)) by {
                    if k != test_id(i as nat) {
                        assert(v_pre.nodes.dom().contains(k));
                    }
                }
            }
            i = i + 1;
        }
        proof {
            lemma_processed_ids_bound(self@.nodes);
        }
        while self.processed_count < self.total_nodes
            invariant
                self.well_formed(),
                sched_inv(self@),
                fully_linked(self@.nodes),
                ranked(self@.nodes, rank),
                self@.max_parallel == max0,
                max0 >= 1,
                self@.nodes.dom().len() == tx_count as nat,
            decreases self@.nodes.dom().len() - processed_ids(self@.nodes).len(),
        {
            let ghost v_pre = self@;
            proof {
                lemma_processed_ids_bound(v_pre.nodes);
                if v_pre.queue.len() == 0 {
                    lemma_idle_means_done(v_pre.nodes, v_pre.queue, rank);
                    lemma_processed_ids_bound(v_pre.nodes);
                    assert(processed_ids(v_pre.nodes) =~= v_pre.nodes.dom());
                }
                assert(v_pre.queue.len() > 0);
                lemma_tick_laws(v_pre);
            }
            let _batch = self.tick();
            proof {
                assert(self@ == tick_step(v_pre));
                lemma_processed_ids_bound(self@.nodes);
            }
        }
        proof {
            lemma_processed_ids_bound(self@.nodes);
            lemma_full_count_means_all(self@.nodes);
            // a drained graph leaves nothing queued: queued nodes are unprocessed
            if self@.queue.len() > 0 {
                assert(self@.nodes.dom().contains(self@.queue[0]));
                assert(!self@.nodes[self@.queue[0]].processed);
            }
        }
        let end = now_millis();
        let spent = if end > start { end - start } else { 0 };
        let elapsed_ms = if spent == 0 { 1 } else { spent };
        let r = compute_benchmark_results(tx_count, elapsed_ms);
        proof {
            assert(elapsed_ms as nat >= 1
                && r == spec_benchmark_results(tx_count as nat, elapsed_ms as nat));
        }
        r
    }
}

/// The views of a batch of per-transaction outcomes.
pub open spec fn outcome_views(v: Seq<(String, bool)>) -> Seq<(Seq<char>, bool)> {
    v.map_values(|p: (String, bool)| (p.0@, p.1))
}

/// The identifier of a synthetic benchmark transaction.
pub open spec fn test_id(i: nat) -> Seq<char> {
    "test_tx_"@ + dec_of(i)
}

/// The dependency list of a synthetic benchmark transaction: every third
/// transaction depends on its predecessor, the rest are independent.
pub open spec fn test_deps(i: nat) -> Seq<Seq<char>> {
    if i > 0 && i % 3 == 0 { seq![test_id((i - 1) as nat)] } else { Seq::empty() }
}

/// Distinct indices mint distinct synthetic identifiers.
proof fn lemma_test_id_injective(a: nat, b: nat)
    requires
        test_id(a) == test_id(b),
    ensures
        a == b,
{
    let p = "test_tx_"@;
    assert(dec_of(a) =~= test_id(a).skip(p.len() as int));
    assert(dec_of(b) =~= test_id(b).skip(p.len() as int));
    lemma_dec_of_injective(a, b);
}

/// Mints the identifier of the `i`-th synthetic transaction.
fn make_test_id(i: usize) -> (s: String)
    ensures
        s@ == test_id(i as nat),
{
    String::from_str("test_tx_").concat(render_u64(i as u64).as_str())
}

/// A synthetic address derived from an index.
fn test_address(n: u64) -> (s: String)
{
    String::from_str("0x").concat(render_u64(n).as_str())
}

/// A 32-byte synthetic payload, every byte the same.
fn test_payload(b: u8) -> (v: Vec<u8>)
    ensures
        v@ == Seq::new(32 as nat, |j: int| b),
{
    let mut v: Vec<u8> = Vec::new();
    let mut i: usize = 0;
    while i < 32
        invariant
            i <= 32,
            v@ =~= Seq::new(i as nat, |j: int| b),
        decreases 32 - i,
    {
        v.push(b);
        i = i + 1;
        proof {
            assert(v@ =~= Seq::new(i as nat, |j: int| b));
        }
    }
    proof {
        assert(v@ =~= Seq::new(32 as nat, |j: int| b));
    }
    v
}

/// Synthesizes `count` test transactions: a mix of independent and chained
/// ones, with fresh identifiers.
fn generate_test_transactions(count: usize) -> (txs: Vec<Transaction>)
    requires
        count <= 0xffff_ffff,
    ensures
        txs@.len() == count,
        forall |i: int| 0 <= i < count ==> {
            &&& (#[trigger] txs@[i])@.id == test_id(i as nat)
            &&& txs@[i]@.dependencies == test_deps(i as nat)
            &&& txs@[i]@.chain_id == 1
            &&& txs@[i]@.data == Seq::new(32 as nat, |j: int| (i as u8))
        },
{
    let now = now_millis() / 1000;
    let mut txs: Vec<Transaction> = Vec::new();
    let mut i: usize = 0;
    while i < count
        invariant
            i <= count,
            count <= 0xffff_ffff,
            txs@.len() == i,
            forall |j: int| 0 <= j < i ==> {
                &&& (#[trigger] txs@[j])@.id == test_id(j as nat)
                &&& txs@[j]@.dependencies == test_deps(j as nat)
                &&& txs@[j]@.chain_id == 1
                &&& txs@[j]@.data == Seq::new(32 as nat, |jj: int| (j as u8))
            },
        decreases count - i,
    {
        let id = make_test_id(i);
        let mut dependencies: Vec<String> = Vec::new();
        if i > 0 && i % 3 == 0 {
            dependencies.push(make_test_id(i - 1));
            proof {
                assert(seq_views(dependencies@) =~= test_deps(i as nat));
            }
        } else {
            proof {
                assert(seq_views(dependencies@) =~= test_deps(i as nat));
            }
        }
        let tx = Transaction {
            id,
            from: test_address(i as u64),
            to: test_address(i as u64 + 1),
            target_address: test_address(i as u64 + 2),
            chain_id: 1,
            data: test_payload(i as u8),
            timestamp: now,
            dependencies,
        };
        txs.push(tx);
        i = i + 1;
    }
    txs
}

/// What a benchmark of `n` transactions that took `e` milliseconds
/// reports: the parallel-efficiency estimate is the estimated serial cost
/// (ten milliseconds per transaction) over the elapsed time, as a
/// percentage capped at one hundred; the throughput is whole transactions
/// per second, rounded up to one for any nonempty run; the run is
/// deterministic, so accuracy is one hundred.
pub open spec fn spec_benchmark_results(n: nat, e: nat) -> BenchmarkResults {
    let rate = n * 1000 / e;
    BenchmarkResults {
        parallel_efficiency: (if rate >= 100 { 100 as nat } else { rate }) as u64,
        throughput_tps: (if n == 0 { 0 as nat } else if rate >= 1 { rate } else { 1 as nat }) as u64,
        accuracy: 100,
        avg_latency_ms: (if n == 0 { 0 as nat } else { e / n }) as u64,
    }
}

/// Derives the report of a benchmark run from its size and its elapsed
/// wall time.
pub fn compute_benchmark_results(tx_count: usize, elapsed_ms: u64) -> (r: BenchmarkResults)
    requires
        elapsed_ms >= 1,
        tx_count <= 0xffff_ffff,
    ensures
        r == spec_benchmark_results(tx_count as nat, elapsed_ms as nat),
        r.parallel_efficiency <= 100,
        r.accuracy == 100,
        tx_count > 0 ==> r.throughput_tps >= 1,
{
    let n = tx_count as u64;
    let rate = n * 1000 / elapsed_ms;
    let parallel_efficiency = if rate >= 100 { 100 } else { rate };
    let throughput_tps = if n == 0 { 0 } else if rate >= 1 { rate } else { 1 };
    let avg_latency_ms = if n == 0 { 0 } else { elapsed_ms / n };
    BenchmarkResults {
        parallel_efficiency,
        throughput_tps,
        accuracy: 100,
        avg_latency_ms,
    }
}

} // verus!
