//! The data carried by the scheduler: transactions, graph nodes, statistics
//! and the error taxonomy, together with their mathematical views.

use vstd::prelude::*;

verus! {

/// A unit of work with a unique identifier and a declared list of
/// prerequisite identifiers.  Immutable once created.
#[derive(Debug, Clone)]
pub struct Transaction {
    pub id: String,
    pub from: String,
    pub to: String,
    pub target_address: String,
    pub chain_id: u64,
    pub data: Vec<u8>,
    pub timestamp: u64,
    pub dependencies: Vec<String>,
}

/// The mathematical view of a transaction.
pub struct TxView {
    pub id: Seq<char>,
    pub from: Seq<char>,
    pub to: Seq<char>,
    pub target_address: Seq<char>,
    pub chain_id: u64,
    pub data: Seq<u8>,
    pub timestamp: u64,
    pub dependencies: Seq<Seq<char>>,
}

/// The view of a sequence of identifier strings.
pub open spec fn seq_views(v: Seq<String>) -> Seq<Seq<char>> {
    v.map_values(|s: String| s@)
}

/// The views of a sequence of transactions.
pub open spec fn tx_views(v: Seq<Transaction>) -> Seq<TxView> {
    v.map_values(|t: Transaction| t@)
}

impl View for Transaction {
    type V = TxView;

    open spec fn view(&self) -> TxView {
        TxView {
            id: self.id@,
            from: self.from@,
            to: self.to@,
            target_address: self.target_address@,
            chain_id: self.chain_id,
            data: self.data@,
            timestamp: self.timestamp,
            dependencies: seq_views(self.dependencies@),
        }
    }
}

/// The graph's record for one transaction: the transaction itself, a copy of
/// its dependency list, the identifiers of the transactions that depend on
/// it, and the monotonic processed flag.
#[derive(Debug, Clone)]
pub struct DAGNode {
    pub transaction: Transaction,
    pub dependencies: Vec<String>,
    pub dependents: Vec<String>,
    pub processed: bool,
}

/// The mathematical view of a graph node.
pub struct NodeView {
    pub tx: TxView,
    pub deps: Seq<Seq<char>>,
    pub dependents: Seq<Seq<char>>,
    pub processed: bool,
}

impl View for DAGNode {
    type V = NodeView;

    open spec fn view(&self) -> NodeView {
        NodeView {
            tx: self.transaction@,
            deps: seq_views(self.dependencies@),
            dependents: seq_views(self.dependents@),
            processed: self.processed,
        }
    }
}

/// What a graph operation can report.
///
/// `NotFound`: the operation referenced an identifier absent from the graph.
/// `ProcessingFailure`: the opaque per-transaction operation failed; the
/// scheduler records nothing but leaves the node unprocessed.
/// `LinkLost`: a dependency named by an inserted transaction was not present
/// at insertion time, so the dependent link was not recorded.
#[derive(Debug, Clone, PartialEq, Eq, Structural)]
pub enum GraphError {
    NotFound,
    ProcessingFailure,
    LinkLost,
}

/// A snapshot of the graph: node counts, queue depth, and the ratio of
/// processed to total nodes as a whole percentage.
#[derive(Debug, Clone, PartialEq, Eq, Structural)]
pub struct DAGStats {
    pub total_nodes: usize,
    pub processed_nodes: usize,
    pub pending_nodes: usize,
    pub queue_size: usize,
    pub parallel_efficiency: u64,
}

/// Copies a vector of strings; the copy has the same view.
pub fn clone_strings(v: &Vec<String>) -> (r: Vec<String>)
    ensures
        r@ == v@,
{
    let mut r: Vec<String> = Vec::new();
    let mut i: usize = 0;
    while i < v.len()
        invariant
            i <= v.len(),
            r@ =~= v@.take(i as int),
        decreases v.len() - i,
    {
        r.push(v[i].clone());
        i = i + 1;
        proof {
            assert(r@ =~= v@.take(i as int));
        }
    }
    proof {
        assert(v@.take(v.len() as int) =~= v@);
    }
    r
}

/// Copies a vector of bytes; the copy has the same view.
pub fn clone_bytes(v: &Vec<u8>) -> (r: Vec<u8>)
    ensures
        r@ == v@,
{
    let mut r: Vec<u8> = Vec::new();
    let mut i: usize = 0;
    while i < v.len()
        invariant
            i <= v.len(),
            r@ =~= v@.take(i as int),
        decreases v.len() - i,
    {
        r.push(v[i]);
        i = i + 1;
        proof {
            assert(r@ =~= v@.take(i as int));
        }
    }
    proof {
        assert(v@.take(v.len() as int) =~= v@);
    }
    r
}

/// Copies a transaction; the copy has the same view.
pub fn clone_transaction(t: &Transaction) -> (r: Transaction)
    ensures
        r@ == t@,
{
    Transaction {
        id: t.id.clone(),
        from: t.from.clone(),
        to: t.to.clone(),
        target_address: t.target_address.clone(),
        chain_id: t.chain_id,
        data: clone_bytes(&t.data),
        timestamp: t.timestamp,
        dependencies: clone_strings(&t.dependencies),
    }
}

} // verus!
