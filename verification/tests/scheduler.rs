//! Scenario tests for the scheduler: single-tick completion, chains,
//! fan-out, the batch bound, FIFO dispatch, and the lost-link behaviour.

use dagshield::config::NodeSettings;
use dagshield::dag::DAGProcessor;
use dagshield::graph::{GraphError, Transaction};

fn settings(max_concurrent_tasks: usize) -> NodeSettings {
    NodeSettings {
        stake_amount: 0,
        reputation_threshold: 70,
        max_concurrent_tasks,
        heartbeat_interval_secs: 30,
        challenge_timeout_secs: 3600,
    }
}

fn tx(id: &str, deps: &[&str]) -> Transaction {
    Transaction {
        id: id.to_string(),
        from: "0x1".to_string(),
        to: "0x2".to_string(),
        target_address: "0x3".to_string(),
        chain_id: 1,
        data: vec![0u8; 4],
        timestamp: 0,
        dependencies: deps.iter().map(|d| d.to_string()).collect(),
    }
}

#[test]
fn single_transaction_processes_in_one_tick() {
    let mut p = DAGProcessor::new(&settings(4));
    p.add_transaction(tx("A", &[])).unwrap();
    let batch = p.tick();
    assert_eq!(batch, vec!["A".to_string()]);
    let stats = p.get_dag_stats();
    assert_eq!(stats.total_nodes, 1);
    assert_eq!(stats.processed_nodes, 1);
    assert_eq!(stats.pending_nodes, 0);
    assert_eq!(stats.queue_size, 0);
    assert_eq!(stats.parallel_efficiency, 100);
}

#[test]
fn out_of_order_dependency_stays_unprocessed() {
    let mut p = DAGProcessor::new(&settings(4));
    p.add_transaction(tx("B", &["A"])).unwrap();
    p.add_transaction(tx("A", &[])).unwrap();
    for _ in 0..10 {
        p.tick();
    }
    assert_eq!(p.is_processed(&"A".to_string()).unwrap(), true);
    assert_eq!(p.is_processed(&"B".to_string()).unwrap(), false);
    let stats = p.get_dag_stats();
    assert_eq!(stats.total_nodes, 2);
    assert_eq!(stats.processed_nodes, 1);
    assert_eq!(stats.pending_nodes, 1);
}

#[test]
fn chain_completes_in_three_ticks() {
    let mut p = DAGProcessor::new(&settings(4));
    p.add_transaction(tx("A", &[])).unwrap();
    p.add_transaction(tx("B", &["A"])).unwrap();
    p.add_transaction(tx("C", &["B"])).unwrap();
    p.tick();
    p.tick();
    p.tick();
    assert_eq!(p.is_processed(&"A".to_string()).unwrap(), true);
    assert_eq!(p.is_processed(&"B".to_string()).unwrap(), true);
    assert_eq!(p.is_processed(&"C".to_string()).unwrap(), true);
    assert_eq!(p.get_dag_stats().pending_nodes, 0);
}

#[test]
fn fan_out_completes_in_two_ticks() {
    let mut p = DAGProcessor::new(&settings(6));
    p.add_transaction(tx("D", &[])).unwrap();
    for name in ["E1", "E2", "E3", "E4", "E5"] {
        p.add_transaction(tx(name, &["D"])).unwrap();
    }
    let first = p.tick();
    assert_eq!(first, vec!["D".to_string()]);
    assert_eq!(p.get_dag_stats().processed_nodes, 1);
    let second = p.tick();
    assert_eq!(second.len(), 5);
    let stats = p.get_dag_stats();
    assert_eq!(stats.processed_nodes, 6);
    assert_eq!(stats.pending_nodes, 0);
}

#[test]
fn batch_bound_is_respected_every_tick() {
    let mut p = DAGProcessor::new(&settings(2));
    for name in ["T1", "T2", "T3", "T4", "T5"] {
        p.add_transaction(tx(name, &[])).unwrap();
    }
    let b1 = p.tick();
    let b2 = p.tick();
    let b3 = p.tick();
    assert_eq!(b1.len(), 2);
    assert_eq!(b2.len(), 2);
    assert_eq!(b3.len(), 1);
    assert_eq!(p.get_dag_stats().pending_nodes, 0);
}

#[test]
fn dispatch_follows_admission_order() {
    let mut p = DAGProcessor::new(&settings(3));
    p.add_transaction(tx("X", &[])).unwrap();
    p.add_transaction(tx("Y", &[])).unwrap();
    p.add_transaction(tx("Z", &[])).unwrap();
    let batch = p.tick();
    assert_eq!(batch, vec!["X".to_string(), "Y".to_string(), "Z".to_string()]);
}

#[test]
fn topological_submission_eventually_drains() {
    let mut p = DAGProcessor::new(&settings(3));
    p.add_transaction(tx("r", &[])).unwrap();
    p.add_transaction(tx("s", &["r"])).unwrap();
    p.add_transaction(tx("t", &["r"])).unwrap();
    p.add_transaction(tx("u", &["s", "t"])).unwrap();
    p.add_transaction(tx("v", &["u"])).unwrap();
    let mut ticks = 0;
    while p.get_dag_stats().pending_nodes > 0 && ticks < 100 {
        p.tick();
        ticks += 1;
    }
    assert_eq!(p.get_dag_stats().pending_nodes, 0);
    assert!(ticks <= 5);
}

#[test]
fn diamond_dependent_is_dispatched_once() {
    let mut p = DAGProcessor::new(&settings(8));
    p.add_transaction(tx("a", &[])).unwrap();
    p.add_transaction(tx("b", &[])).unwrap();
    p.add_transaction(tx("m", &["a", "b"])).unwrap();
    let first = p.tick();
    assert_eq!(first.len(), 2);
    let second = p.tick();
    assert_eq!(second, vec!["m".to_string()]);
    let third = p.tick();
    assert!(third.is_empty());
    assert_eq!(p.get_dag_stats().processed_nodes, 3);
}

#[test]
fn mark_processed_unknown_id_is_not_found() {
    let mut p = DAGProcessor::new(&settings(2));
    assert_eq!(p.mark_processed(&"ghostly".to_string()), Err(GraphError::NotFound));
    p.add_transaction(tx("known", &[])).unwrap();
    assert_eq!(p.mark_processed(&"known".to_string()), Ok(()));
    assert_eq!(p.is_processed(&"known".to_string()).unwrap(), true);
}

#[test]
fn dependent_links_record_only_present_dependencies() {
    let mut p = DAGProcessor::new(&settings(2));
    p.add_transaction(tx("A", &[])).unwrap();
    p.add_transaction(tx("B", &["A"])).unwrap();
    assert_eq!(p.dependents_of(&"A".to_string()).unwrap(), vec!["B".to_string()]);
    assert_eq!(p.dependencies_of(&"B".to_string()).unwrap(), vec!["A".to_string()]);

    let mut q = DAGProcessor::new(&settings(2));
    q.add_transaction(tx("B", &["A"])).unwrap();
    q.add_transaction(tx("A", &[])).unwrap();
    assert_eq!(q.dependents_of(&"A".to_string()).unwrap(), Vec::<String>::new());
    assert_eq!(q.dependents_of(&"missing".to_string()), Err(GraphError::NotFound));
}

#[test]
fn failed_transaction_is_never_retried() {
    let mut p = DAGProcessor::new(&settings(4));
    p.add_transaction(tx("ok", &[])).unwrap();
    p.add_transaction(tx("bad", &[])).unwrap();
    p.add_transaction(tx("child", &["bad"])).unwrap();
    let batch = p.get_ready_transactions();
    assert_eq!(batch, vec!["ok".to_string(), "bad".to_string()]);
    let outcomes = vec![("ok".to_string(), true), ("bad".to_string(), false)];
    p.complete_batch(&outcomes);
    for _ in 0..10 {
        p.tick();
    }
    assert_eq!(p.is_processed(&"ok".to_string()).unwrap(), true);
    assert_eq!(p.is_processed(&"bad".to_string()).unwrap(), false);
    assert_eq!(p.is_processed(&"child".to_string()).unwrap(), false);
    assert_eq!(p.get_dag_stats().pending_nodes, 2);
}

#[test]
fn reduce_intensity_halves_the_batch() {
    let mut p = DAGProcessor::new(&settings(10));
    for i in 0..10 {
        p.add_transaction(tx(&format!("n{}", i), &[])).unwrap();
    }
    p.reduce_intensity();
    let batch = p.tick();
    assert_eq!(batch.len(), 5);
    p.reduce_intensity();
    let batch = p.tick();
    assert_eq!(batch.len(), 2);
}

#[test]
fn reduce_intensity_never_raises_the_bound() {
    // a bound of one is kept, so the dispatcher still drains
    let mut one = DAGProcessor::new(&settings(1));
    one.add_transaction(tx("A", &[])).unwrap();
    one.add_transaction(tx("B", &[])).unwrap();
    one.reduce_intensity();
    assert_eq!(one.tick(), vec!["A".to_string()]);

    // a dispatcher configured off stays off
    let mut off = DAGProcessor::new(&settings(0));
    off.add_transaction(tx("A", &[])).unwrap();
    off.reduce_intensity();
    assert!(off.tick().is_empty());
    assert_eq!(off.is_processed(&"A".to_string()).unwrap(), false);
}

#[test]
fn reinsertion_overwrites_node_state() {
    let mut p = DAGProcessor::new(&settings(2));
    p.add_transaction(tx("A", &[])).unwrap();
    p.tick();
    assert_eq!(p.is_processed(&"A".to_string()).unwrap(), true);
    p.add_transaction(tx("A", &[])).unwrap();
    assert_eq!(p.is_processed(&"A".to_string()).unwrap(), false);
    assert_eq!(p.get_dag_stats().total_nodes, 1);
    p.tick();
    assert_eq!(p.is_processed(&"A".to_string()).unwrap(), true);
}

#[test]
fn pending_snapshot_starts_empty() {
    let mut p = DAGProcessor::new(&settings(2));
    p.add_transaction(tx("A", &[])).unwrap();
    assert!(p.get_pending_transactions().is_empty());
}
