//! Tests for the stats formulas, the benchmark, decimal rendering, the
//! challenge routing, and the speed-challenge digest.

use dagshield::config::NodeSettings;
use dagshield::dag::{compute_benchmark_results, DAGProcessor};
use dagshield::decimal::render_u64;
use dagshield::graph::Transaction;
use dagshield::node::{classify_challenge, ChallengeKind};

fn settings(max_concurrent_tasks: usize) -> NodeSettings {
    NodeSettings {
        stake_amount: 0,
        reputation_threshold: 70,
        max_concurrent_tasks,
        heartbeat_interval_secs: 30,
        challenge_timeout_secs: 3600,
    }
}

fn tx(id: &str, deps: &[&str]) -> Transaction {
    Transaction {
        id: id.to_string(),
        from: "0x1".to_string(),
        to: "0x2".to_string(),
        target_address: "0x3".to_string(),
        chain_id: 1,
        data: vec![7u8; 4],
        timestamp: 0,
        dependencies: deps.iter().map(|d| d.to_string()).collect(),
    }
}

#[test]
fn stats_efficiency_is_processed_share() {
    let mut p = DAGProcessor::new(&settings(1));
    p.add_transaction(tx("A", &[])).unwrap();
    p.add_transaction(tx("B", &[])).unwrap();
    p.add_transaction(tx("C", &[])).unwrap();
    p.tick();
    let stats = p.get_dag_stats();
    assert_eq!(stats.total_nodes, 3);
    assert_eq!(stats.processed_nodes, 1);
    assert_eq!(stats.pending_nodes, 2);
    assert_eq!(stats.queue_size, 2);
    assert_eq!(stats.parallel_efficiency, 33);
}

#[test]
fn stats_on_empty_graph_are_zero() {
    let p = DAGProcessor::new(&settings(4));
    let stats = p.get_dag_stats();
    assert_eq!(stats.total_nodes, 0);
    assert_eq!(stats.processed_nodes, 0);
    assert_eq!(stats.pending_nodes, 0);
    assert_eq!(stats.queue_size, 0);
    assert_eq!(stats.parallel_efficiency, 0);
}

#[test]
fn benchmark_formulas_give_exact_values() {
    let fast = compute_benchmark_results(1000, 5000);
    assert_eq!(fast.parallel_efficiency, 100);
    assert_eq!(fast.throughput_tps, 200);
    assert_eq!(fast.accuracy, 100);
    assert_eq!(fast.avg_latency_ms, 5);

    let slow = compute_benchmark_results(10, 10000);
    assert_eq!(slow.parallel_efficiency, 1);
    assert_eq!(slow.throughput_tps, 1);
    assert_eq!(slow.avg_latency_ms, 1000);

    let crawl = compute_benchmark_results(5, 100000);
    assert_eq!(crawl.parallel_efficiency, 0);
    assert_eq!(crawl.throughput_tps, 1);

    let empty = compute_benchmark_results(0, 17);
    assert_eq!(empty.throughput_tps, 0);
    assert_eq!(empty.avg_latency_ms, 0);
}

#[test]
fn benchmark_run_reports_capped_efficiency_and_positive_throughput() {
    let mut p = DAGProcessor::new(&settings(32));
    let results = p.benchmark(1000);
    assert!(results.parallel_efficiency <= 100);
    assert!(results.throughput_tps > 0);
    assert_eq!(results.accuracy, 100);
    let stats = p.get_dag_stats();
    assert_eq!(stats.total_nodes, 1000);
    assert_eq!(stats.pending_nodes, 0);
    assert_eq!(stats.queue_size, 0);
    assert_eq!(stats.parallel_efficiency, 100);
    assert!(p.all_transactions_processed());
}

#[test]
fn speed_challenge_solution_carries_the_digest() {
    let p = DAGProcessor::new(&settings(2));
    let solution = p.solve_speed_challenge("speed-trial").unwrap();
    let expected = format!("dag_solution_{}", blake3::hash("speed-trial".as_bytes()).to_hex());
    assert_eq!(solution, expected);
    let other = p.solve_speed_challenge("another-trial").unwrap();
    assert_ne!(solution, other);
    assert_ne!(solution, "dag_solution_speed-trial");
}

#[test]
fn decimal_rendering_matches() {
    assert_eq!(render_u64(0), "0");
    assert_eq!(render_u64(7), "7");
    assert_eq!(render_u64(10), "10");
    assert_eq!(render_u64(12345), "12345");
    assert_eq!(render_u64(18446744073709551615), "18446744073709551615");
}

#[test]
fn challenge_routing_matches_the_tags() {
    assert_eq!(
        classify_challenge(&"threat_detection_accuracy".to_string()),
        ChallengeKind::ThreatDetectionAccuracy,
    );
    assert_eq!(
        classify_challenge(&"dag_processing_speed".to_string()),
        ChallengeKind::DagProcessingSpeed,
    );
    assert_eq!(
        classify_challenge(&"energy_efficiency".to_string()),
        ChallengeKind::EnergyEfficiency,
    );
    assert_eq!(classify_challenge(&"proof_of_bake".to_string()), ChallengeKind::Unknown);
}
