use mempool_fee_analyzer::config::Comparison;
use mempool_fee_analyzer::mempool_data::MempoolTransaction;
use mempool_fee_analyzer::mempool_data_subsets::{
    filter_mempool_txns, HighFeeFilter, InputsCountFilter, LowFeeFilter, MempoolFilter,
    OutputsCountFilter,
};
use mempool_fee_analyzer::ratio::Ratio;

fn tx(txid: &str, fee: u64, weight: u64, inputs: u32, outputs: u32) -> MempoolTransaction {
    MempoolTransaction::new(txid.to_string(), fee, weight, vec![], inputs, outputs)
        .expect("valid record")
}

fn batch() -> Vec<MempoolTransaction> {
    vec![
        tx("a", 100, 100, 1, 2),  // rate 1.0
        tx("b", 300, 100, 2, 2),  // rate 3.0
        tx("c", 500, 100, 3, 5),  // rate 5.0
        tx("d", 50, 100, 2, 1),   // rate 0.5
    ]
}

fn txids(txns: &[MempoolTransaction]) -> Vec<String> {
    txns.iter().map(|t| t.txid.clone()).collect()
}

#[test]
fn no_predicates_keeps_the_batch() {
    let b = batch();
    let filtered = filter_mempool_txns(&b, &vec![]);
    assert_eq!(txids(&filtered), txids(&b));
}

#[test]
fn two_predicates_equal_their_composition() {
    let b = batch();
    let p1 = MempoolFilter::HighFee(HighFeeFilter { threshold: Ratio { num: 1, den: 1 } });
    let p2 = MempoolFilter::InputsCount(InputsCountFilter {
        comparison: Comparison::LessThan,
        count: 3,
    });
    let together = filter_mempool_txns(&b, &vec![p1, p2]);
    let first = filter_mempool_txns(&b, &vec![p1]);
    let chained = filter_mempool_txns(&first, &vec![p2]);
    assert_eq!(txids(&together), txids(&chained));
    // rate >= 1 keeps a, b, c; inputs < 3 then keeps a, b
    assert_eq!(txids(&together), vec!["a".to_string(), "b".to_string()]);
}

#[test]
fn low_fee_filter_is_a_strict_threshold() {
    let b = batch();
    let low = MempoolFilter::LowFee(LowFeeFilter { threshold: Ratio { num: 1, den: 1 } });
    let filtered = filter_mempool_txns(&b, &vec![low]);
    // only d's rate 0.5 lies strictly below 1; a's rate equals the threshold
    assert_eq!(txids(&filtered), vec!["d".to_string()]);
}

#[test]
fn high_fee_filter_keeps_the_threshold_itself() {
    let b = batch();
    let high = MempoolFilter::HighFee(HighFeeFilter { threshold: Ratio { num: 3, den: 1 } });
    let filtered = filter_mempool_txns(&b, &vec![high]);
    assert_eq!(txids(&filtered), vec!["b".to_string(), "c".to_string()]);
}

#[test]
fn count_filters_compare_exactly() {
    let b = batch();
    let eq2 = MempoolFilter::InputsCount(InputsCountFilter {
        comparison: Comparison::Equals,
        count: 2,
    });
    assert_eq!(
        txids(&filter_mempool_txns(&b, &vec![eq2])),
        vec!["b".to_string(), "d".to_string()]
    );
    let gt2 = MempoolFilter::OutputsCount(OutputsCountFilter {
        comparison: Comparison::GreaterThan,
        count: 2,
    });
    assert_eq!(txids(&filter_mempool_txns(&b, &vec![gt2])), vec!["c".to_string()]);
    let lt2 = MempoolFilter::OutputsCount(OutputsCountFilter {
        comparison: Comparison::LessThan,
        count: 2,
    });
    assert_eq!(txids(&filter_mempool_txns(&b, &vec![lt2])), vec!["d".to_string()]);
}

#[test]
fn contradictory_predicates_keep_nothing() {
    let b = batch();
    let low = MempoolFilter::LowFee(LowFeeFilter { threshold: Ratio { num: 1, den: 1 } });
    let high = MempoolFilter::HighFee(HighFeeFilter { threshold: Ratio { num: 1, den: 1 } });
    let filtered = filter_mempool_txns(&b, &vec![low, high]);
    assert!(filtered.is_empty());
}
