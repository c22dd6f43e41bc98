use mempool_fee_analyzer::mempool_data::MempoolTransaction;
use mempool_fee_analyzer::ratio::Ratio;
use mempool_fee_analyzer::runner::AnalyzerError;
use mempool_fee_analyzer::strategies::block_template_median::BlockTemplateMedianEstimator;
use mempool_fee_analyzer::strategies::{select_strategy, FeeRateStrategy};

fn tx_with_rate(txid: &str, rate: u64) -> MempoolTransaction {
    MempoolTransaction::new(txid.to_string(), rate, 1, vec![], 0, 0).expect("valid record")
}

#[test]
fn median_of_even_template_is_exact_average() {
    // fee rates 1, 2, 3, 4: the median is (2 + 3) / 2 = 2.5, held exactly
    // as the rational 5/2
    let batch = vec![
        tx_with_rate("a", 1),
        tx_with_rate("b", 2),
        tx_with_rate("c", 3),
        tx_with_rate("d", 4),
    ];
    let estimate = BlockTemplateMedianEstimator.estimate_fee_rate(&batch).expect("defined");
    assert_eq!(estimate, Ratio { num: 5, den: 2 });
}

#[test]
fn median_of_odd_template_is_central_element() {
    // fee rates 1, 2, 3: the median is 2
    let batch = vec![tx_with_rate("a", 1), tx_with_rate("b", 2), tx_with_rate("c", 3)];
    let estimate = BlockTemplateMedianEstimator.estimate_fee_rate(&batch).expect("defined");
    assert_eq!(estimate, Ratio { num: 2, den: 1 });
}

#[test]
fn empty_template_has_no_median() {
    let batch: Vec<MempoolTransaction> = vec![];
    let r = BlockTemplateMedianEstimator.estimate_fee_rate(&batch);
    assert!(matches!(r, Err(AnalyzerError::EmptyTemplate)));
}

#[test]
fn median_ignores_input_order() {
    // same records in another order give the same estimate
    let batch = vec![
        tx_with_rate("d", 4),
        tx_with_rate("b", 2),
        tx_with_rate("a", 1),
        tx_with_rate("c", 3),
    ];
    let estimate = BlockTemplateMedianEstimator.estimate_fee_rate(&batch).expect("defined");
    assert_eq!(estimate, Ratio { num: 5, den: 2 });
}

#[test]
fn known_strategy_is_selected() {
    let r = select_strategy("block_template_median");
    assert!(matches!(r, Ok(FeeRateStrategy::BlockTemplateMedian)));
}

#[test]
fn unknown_strategy_is_a_configuration_error() {
    let r = select_strategy("percentile_of_pool");
    assert!(matches!(r, Err(AnalyzerError::UnknownStrategy)));
}

#[test]
fn strategy_name_is_stable() {
    assert_eq!(
        BlockTemplateMedianEstimator.name(),
        "Block Template Median Strategy"
    );
}
