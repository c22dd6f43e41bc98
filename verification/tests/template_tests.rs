use mempool_fee_analyzer::block_data::{BlockBuilder, BlockMetrics};
use mempool_fee_analyzer::ratio::Ratio;
use mempool_fee_analyzer::mempool_data::{check_batch, MempoolTransaction};
use mempool_fee_analyzer::runner::AnalyzerError;

fn tx(txid: &str, fee: u64, weight: u64, parents: &[&str]) -> MempoolTransaction {
    MempoolTransaction::new(
        txid.to_string(),
        fee,
        weight,
        parents.iter().map(|p| p.to_string()).collect(),
        0,
        0,
    )
    .expect("valid record")
}

fn txids(txns: &[MempoolTransaction]) -> Vec<String> {
    txns.iter().map(|t| t.txid.clone()).collect()
}

#[test]
fn ancestor_always_precedes_descendant() {
    // child appears first in the batch; the template must reorder it after
    // its ancestor.
    let batch = vec![
        tx("child", 9_000, 1_000, &["parent"]),
        tx("grandchild", 9_500, 1_000, &["child"]),
        tx("parent", 100, 1_000, &[]),
    ];
    assert!(check_batch(&batch));
    let template = BlockBuilder::build_block(&batch).expect("acyclic");
    let ids = txids(&template);
    assert_eq!(template.len(), 3);
    for i in 0..ids.len() {
        for j in (i + 1)..ids.len() {
            // an earlier record never depends on a later one
            assert!(!template[i].parent_txids.contains(&ids[j]));
        }
    }
    let parent_pos = ids.iter().position(|s| s == "parent").unwrap();
    let child_pos = ids.iter().position(|s| s == "child").unwrap();
    let grandchild_pos = ids.iter().position(|s| s == "grandchild").unwrap();
    assert!(parent_pos < child_pos);
    assert!(child_pos < grandchild_pos);
}

#[test]
fn capacity_is_never_exceeded_and_first_reject_would_exceed_it() {
    // capacity is 4_000_000; the three records in ascending fee-rate order
    // weigh 3_000_000 / 900_000 / 3_500_000, so the walk accepts the first
    // two and rejects the third.
    let batch = vec![
        tx("a", 3_000_000, 3_000_000, &[]),
        tx("b", 1_800_000, 900_000, &[]),
        tx("c", 10_500_000, 3_500_000, &[]),
    ];
    let template = BlockBuilder::build_block(&batch).expect("acyclic");
    let ids = txids(&template);
    assert_eq!(ids, vec!["a".to_string(), "b".to_string()]);
    let metrics = BlockMetrics {
        total_txns_included_in_block: 0,
        total_txns_in_mempool: 0,
        total_weight: 0,
        total_fees: 0,
        total_possible_fees: 0,
        fraction_of_total_possible_fees: None,
    };
    let total = metrics.calculate_total_block_weight(&template);
    assert!(total <= 4_000_000);
    // appending the first rejected record would exceed the capacity
    assert!(total + 3_500_000 > 4_000_000);
}

#[test]
fn no_edges_keeps_stable_fee_order() {
    // equal fee rates keep input order; lower rates go first
    let batch = vec![
        tx("first_half", 100, 100, &[]),
        tx("cheap", 10, 100, &[]),
        tx("second_half", 200, 200, &[]),
        tx("dear", 300, 100, &[]),
    ];
    let template = BlockBuilder::build_block(&batch).expect("acyclic");
    let ids = txids(&template);
    // rates: cheap 0.1 < first_half 1.0 == second_half 1.0 < dear 3.0,
    // with the 1.0 tie kept in input order
    assert_eq!(
        ids,
        vec![
            "cheap".to_string(),
            "first_half".to_string(),
            "second_half".to_string(),
            "dear".to_string()
        ]
    );
}

#[test]
fn cyclic_batch_is_a_fatal_error() {
    let batch = vec![tx("a", 100, 100, &["b"]), tx("b", 100, 100, &["a"])];
    let r = BlockBuilder::build_block(&batch);
    assert!(matches!(r, Err(AnalyzerError::CyclicDependency)));
}

#[test]
fn self_dependency_is_a_cycle() {
    let batch = vec![tx("a", 100, 100, &["a"])];
    let r = BlockBuilder::build_block(&batch);
    assert!(matches!(r, Err(AnalyzerError::CyclicDependency)));
}

#[test]
fn zero_weight_record_is_rejected_at_construction() {
    let r = MempoolTransaction::new("z".to_string(), 10, 0, vec![], 0, 0);
    assert!(matches!(r, Err(AnalyzerError::ZeroWeightTransaction)));
    let batch = vec![MempoolTransaction {
        txid: "z".to_string(),
        fee: 10,
        weight: 0,
        parent_txids: vec![],
        inputs_count: 0,
        outputs_count: 0,
    }];
    assert!(!check_batch(&batch));
}

#[test]
fn metrics_capture_the_fee_fraction() {
    let pool = vec![tx("a", 5, 10, &[]), tx("b", 7, 20, &[]), tx("c", 11, 30, &[])];
    let block = vec![tx("a", 5, 10, &[]), tx("b", 7, 20, &[])];
    let metrics = BlockMetrics::compute(&pool, &block);
    assert_eq!(metrics.total_txns_included_in_block, 2);
    assert_eq!(metrics.total_txns_in_mempool, 3);
    assert_eq!(metrics.total_fees, 12);
    assert_eq!(metrics.total_possible_fees, 23);
    assert_eq!(metrics.total_weight, 30);
    assert_eq!(
        metrics.fraction_of_total_possible_fees,
        Some(Ratio { num: 12, den: 23 })
    );
    let empty: Vec<MempoolTransaction> = vec![];
    let empty_metrics = BlockMetrics::compute(&empty, &empty);
    // no fees available at all: the share is undefined, not zero
    assert_eq!(empty_metrics.fraction_of_total_possible_fees, None);
}

#[test]
fn metrics_sum_fees_and_weights() {
    let batch = vec![tx("a", 5, 10, &[]), tx("b", 7, 20, &[]), tx("c", 11, 30, &[])];
    let metrics = BlockMetrics {
        total_txns_included_in_block: 0,
        total_txns_in_mempool: 0,
        total_weight: 0,
        total_fees: 0,
        total_possible_fees: 0,
        fraction_of_total_possible_fees: None,
    };
    assert_eq!(metrics.calculate_total_block_fees_to_receive(&batch), 23);
    assert_eq!(metrics.calculate_total_possible_fees(&batch), 23);
    assert_eq!(metrics.calculate_total_block_weight(&batch), 60);
    let empty: Vec<MempoolTransaction> = vec![];
    assert_eq!(metrics.calculate_total_possible_fees(&empty), 0);
}
