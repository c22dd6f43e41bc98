use mempool_fee_analyzer::block_data::BlockTransaction;
use mempool_fee_analyzer::mempool_data::MempoolTransaction;
use mempool_fee_analyzer::ratio::Ratio;
use mempool_fee_analyzer::result::{
    append_result_if_new, apply_result_update, AnalyzerResult, AnalyzerResultUpdate,
};
use mempool_fee_analyzer::runner::{
    analysis_complete, check_if_target_block_found, compute_conditional_probability,
    find_common_transactions,
};

fn tx(txid: &str) -> MempoolTransaction {
    MempoolTransaction::new(txid.to_string(), 100, 100, vec![], 0, 0).expect("valid record")
}

fn record_for_height(h: u32) -> AnalyzerResult {
    let mut r = AnalyzerResult::default();
    r.prev_block_height = h;
    r.target_block_height = h + 1;
    r.mempool_subset_txns_count = 4;
    r
}

#[test]
fn conditional_probability_is_undefined_for_an_empty_subset() {
    assert_eq!(compute_conditional_probability(0, 0), None);
}

#[test]
fn conditional_probability_is_the_exact_fraction() {
    assert_eq!(
        compute_conditional_probability(2, 4),
        Some(Ratio { num: 2, den: 4 })
    );
    // zero hits in a non-empty subset is the number zero, not "no data"
    assert_eq!(
        compute_conditional_probability(0, 5),
        Some(Ratio { num: 0, den: 5 })
    );
}

#[test]
fn idempotent_history_append() {
    let mut history: Vec<AnalyzerResult> = vec![];
    let appended = append_result_if_new(&mut history, record_for_height(100));
    assert!(appended);
    assert_eq!(history.len(), 1);
    // committing a record for an already-recorded height must not create a
    // duplicate row
    let appended_again = append_result_if_new(&mut history, record_for_height(100));
    assert!(!appended_again);
    assert_eq!(history.len(), 1);
    let appended_other = append_result_if_new(&mut history, record_for_height(101));
    assert!(appended_other);
    assert_eq!(history.len(), 2);
}

#[test]
fn result_update_fills_the_tracked_row() {
    let mut history = vec![record_for_height(99), record_for_height(100)];
    let update = AnalyzerResultUpdate {
        target_block_hash: "00beef".to_string(),
        target_block_txns_count: 7,
        mempool_subset_txns_in_target_block_count: 3,
    };
    // rows are keyed by their target height when the produced block at that
    // height is folded in
    apply_result_update(&mut history, 101, &update);
    assert_eq!(history[0].target_block_hash, "");
    assert_eq!(history[1].target_block_hash, "00beef");
    assert_eq!(history[1].target_block_txns_count, 7);
    assert_eq!(history[1].mempool_subset_txns_in_target_block_count, 3);
    assert_eq!(
        history[1].conditional_probability,
        Some(Ratio { num: 3, den: 4 })
    );
}

#[test]
fn result_update_with_empty_subset_leaves_probability_undefined() {
    let mut r = record_for_height(7);
    r.mempool_subset_txns_count = 0;
    let mut history = vec![r];
    let update = AnalyzerResultUpdate {
        target_block_hash: "aa".to_string(),
        target_block_txns_count: 1,
        mempool_subset_txns_in_target_block_count: 0,
    };
    apply_result_update(&mut history, 8, &update);
    assert_eq!(history[0].conditional_probability, None);
}

#[test]
fn intersection_keeps_subset_order() {
    let subset = vec![tx("a"), tx("b"), tx("c")];
    let block = vec![
        BlockTransaction { txid: "c".to_string() },
        BlockTransaction { txid: "a".to_string() },
        BlockTransaction { txid: "x".to_string() },
    ];
    let common = find_common_transactions(&subset, &block);
    let ids: Vec<String> = common.iter().map(|t| t.txid.clone()).collect();
    assert_eq!(ids, vec!["a".to_string(), "c".to_string()]);
}

#[test]
fn target_block_found_exactly_when_height_advanced() {
    assert!(check_if_target_block_found(100, 101));
    assert!(!check_if_target_block_found(101, 101));
    assert!(!check_if_target_block_found(102, 101));
}

#[test]
fn analysis_completes_at_the_configured_duration() {
    assert!(!analysis_complete(2, 3));
    assert!(analysis_complete(3, 3));
    assert!(analysis_complete(4, 3));
}
