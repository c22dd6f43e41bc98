use mempool_fee_analyzer::block_data::{BlockBuilder, BlockTransaction};
use mempool_fee_analyzer::config::{Commands, Config};
use mempool_fee_analyzer::mempool_data::MempoolTransaction;
use mempool_fee_analyzer::ratio::Ratio;
use mempool_fee_analyzer::result::AnalyzerResult;
use mempool_fee_analyzer::runner::{
    check_if_target_block_found, evaluate_tick, BlockDiscovery, Runner, SnapshotData,
    TickInputs,
};
use mempool_fee_analyzer::strategies::block_template_median::BlockTemplateMedianEstimator;
use mempool_fee_analyzer::strategies::select_strategy;

fn tx(txid: &str, fee: u64, weight: u64, parents: &[&str]) -> MempoolTransaction {
    MempoolTransaction::new(
        txid.to_string(),
        fee,
        weight,
        parents.iter().map(|p| p.to_string()).collect(),
        0,
        0,
    )
    .expect("valid record")
}

/// Three transactions, scaled so that two of them fill the capacity: in the
/// walk order [c, a, b] (ties broken by input order), c and a are accepted,
/// b would overflow the capacity, and the template's median fee rate is
/// exactly 1.
///
/// This is the classic shape: a cheap independent record, a parent with the
/// same fee rate, and a well-paying child that no longer fits.
#[test]
fn end_to_end_template_and_median() {
    // fee rates: c = 1, a = 1, b = 2; weights scaled to the fixed capacity
    // of 4_000_000: c 800_000, a 1_600_000, b 3_200_000
    let batch = vec![
        tx("c", 800_000, 800_000, &[]),
        tx("a", 1_600_000, 1_600_000, &[]),
        tx("b", 6_400_000, 3_200_000, &["a"]),
    ];
    let template = BlockBuilder::build_block(&batch).expect("acyclic");
    let ids: Vec<String> = template.iter().map(|t| t.txid.clone()).collect();
    // ascending fee-rate order with stable ties: c, a, b; a before b is
    // also forced by the ancestor edge; greedy: accept c (800k), accept a
    // (2.4M), reject b (5.6M > 4M)
    assert_eq!(ids, vec!["c".to_string(), "a".to_string()]);
    let estimate = BlockTemplateMedianEstimator.estimate_fee_rate(&batch).expect("defined");
    // median of the two equal rates is 1, as the exact rational
    assert_eq!(estimate.num, estimate.den);
    assert_eq!(
        estimate,
        Ratio { num: 2 * 800_000 * 1_600_000, den: 2 * 800_000 * 1_600_000 }
    );
}

fn base_config() -> Config {
    Config {
        strategy_name: "block_template_median".to_string(),
        commands: Commands::SubsetSample {
            low_fee_txns: false,
            high_fee_txns: true,
            inputs: None,
            outputs: None,
        },
        duration: 3,
    }
}

fn pool() -> Vec<MempoolTransaction> {
    vec![
        tx("a", 100, 100, &[]),  // rate 1
        tx("b", 300, 100, &[]),  // rate 3
        tx("c", 500, 100, &[]),  // rate 5
    ]
}

/// A tick with no new block: the engine only computes the fresh record for
/// the next height.
#[test]
fn tick_without_discovery_carries_a_fresh_record() {
    let config = base_config();
    let strategy = select_strategy(&config.strategy_name).expect("known strategy");
    let runner = Runner::new(strategy);
    // the snapshot's pool is one tick old and larger than the current one:
    // the fresh record must describe the current pool, not the stale one
    let mut stale_pool = pool();
    stale_pool.push(tx("gone", 700, 100, &[]));
    let snapshot = SnapshotData {
        target_block_height: 101,
        mempool_txids: vec!["a".to_string(), "b".to_string(), "c".to_string()],
        mempool_txns: stale_pool,
        analyzer_result: AnalyzerResult::default(),
    };
    assert!(!check_if_target_block_found(snapshot.target_block_height, 101));
    let tick = TickInputs {
        prev_block_height: 100,
        prev_block_hash: "00aa".to_string(),
        snapshot_timestamp: "2024-01-01 00:00:00+0000".to_string(),
    };
    let outcome = evaluate_tick(&config, &runner, &snapshot, &pool(), tick, None)
        .expect("no cycles");
    assert!(outcome.correlation_result.is_none());
    let fresh = outcome.fresh_result;
    assert_eq!(fresh.prev_block_height, 100);
    assert_eq!(fresh.target_block_height, 101);
    assert_eq!(fresh.prev_block_hash, "00aa");
    // the pool median is 3 (rates 1, 3, 5); the high-fee subset keeps the
    // records at or above it: b and c
    assert_eq!(fresh.mempool_fee_rate_estimate, Some(Ratio { num: 300, den: 100 }));
    assert_eq!(fresh.mempool_subset_txns_count, 2);
    // the subset's own median: rates 3 and 5, average 4
    assert_eq!(
        fresh.mempool_subset_fee_rate_estimate,
        Some(Ratio { num: 300 * 100 + 500 * 100, den: 2 * 100 * 100 })
    );
    // no block seen yet: zero hits out of two
    assert_eq!(fresh.conditional_probability, Some(Ratio { num: 0, den: 2 }));
    assert_eq!(fresh.blocks_found_count, 0);
    // the depth of the pool this record's estimates were computed over
    assert_eq!(fresh.mempool_depth, 3);
    assert_eq!(fresh.target_block_hash, "");
}

/// A tick that observes the tracked block: the previously tracked subset is
/// intersected with the block and the correlation record is produced.
#[test]
fn tick_with_discovery_correlates_the_tracked_subset() {
    let config = base_config();
    let strategy = select_strategy(&config.strategy_name).expect("known strategy");
    let runner = Runner::new(strategy);
    let mut last = AnalyzerResult::default();
    last.prev_block_height = 100;
    last.target_block_height = 101;
    last.blocks_found_count = 1;
    last.snapshot_timestamp = "2024-01-01 00:00:00+0000".to_string();
    let snapshot = SnapshotData {
        target_block_height: 101,
        mempool_txids: vec!["a".to_string(), "b".to_string(), "c".to_string()],
        mempool_txns: pool(),
        analyzer_result: last,
    };
    assert!(check_if_target_block_found(snapshot.target_block_height, 102));
    let tick = TickInputs {
        prev_block_height: 101,
        prev_block_hash: "00bb".to_string(),
        snapshot_timestamp: "2024-01-01 00:00:10+0000".to_string(),
    };
    let discovery = BlockDiscovery {
        target_block_hash: "00cc".to_string(),
        block_txns: vec![
            BlockTransaction { txid: "b".to_string() },
            BlockTransaction { txid: "x".to_string() },
        ],
        discovery_timestamp: "2024-01-01 00:00:09+0000".to_string(),
    };
    let outcome = evaluate_tick(&config, &runner, &snapshot, &pool(), tick, Some(discovery))
        .expect("no cycles");
    let correlation = outcome.correlation_result.expect("block discovered");
    // the tracked subset (high fee over the snapshot pool) is [b, c]; the
    // block holds b and an unrelated x: one hit out of two
    assert_eq!(correlation.mempool_subset_txns_count, 2);
    assert_eq!(correlation.target_block_txns_count, 2);
    assert_eq!(correlation.mempool_subset_txns_in_target_block_count, 1);
    assert_eq!(correlation.conditional_probability, Some(Ratio { num: 1, den: 2 }));
    assert_eq!(correlation.target_block_hash, "00cc");
    assert_eq!(correlation.prev_block_height, 100);
    assert_eq!(correlation.target_block_height, 101);
    assert_eq!(correlation.blocks_found_count, 2);
    assert_eq!(correlation.block_discovery_timestamp, "2024-01-01 00:00:09+0000");
    assert_eq!(correlation.snapshot_timestamp, "2024-01-01 00:00:00+0000");
    // the fresh record tracks the next height with the incremented count
    assert_eq!(outcome.fresh_result.target_block_height, 102);
    assert_eq!(outcome.fresh_result.blocks_found_count, 2);
}

/// A cyclic pool aborts the tick with the fatal input-data error.
#[test]
fn cyclic_pool_aborts_the_tick() {
    let config = base_config();
    let strategy = select_strategy(&config.strategy_name).expect("known strategy");
    let runner = Runner::new(strategy);
    let snapshot = SnapshotData {
        target_block_height: 101,
        mempool_txids: vec![],
        mempool_txns: vec![],
        analyzer_result: AnalyzerResult::default(),
    };
    let tick = TickInputs {
        prev_block_height: 100,
        prev_block_hash: "00aa".to_string(),
        snapshot_timestamp: "t".to_string(),
    };
    let cyclic = vec![tx("a", 1, 1, &["b"]), tx("b", 1, 1, &["a"])];
    let r = evaluate_tick(&config, &runner, &snapshot, &cyclic, tick, None);
    assert!(matches!(
        r,
        Err(mempool_fee_analyzer::runner::AnalyzerError::CyclicDependency)
    ));
}
