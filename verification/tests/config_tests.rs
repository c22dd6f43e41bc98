use mempool_fee_analyzer::block_data::BlockMonitor;
use mempool_fee_analyzer::config::{parse_comparison_and_count, Comparison};
use mempool_fee_analyzer::runner::AnalyzerError;

#[test]
fn well_formed_rules_parse() {
    assert_eq!(
        parse_comparison_and_count("less-than 5"),
        Ok((Comparison::LessThan, 5))
    );
    assert_eq!(
        parse_comparison_and_count("greater-than 10"),
        Ok((Comparison::GreaterThan, 10))
    );
    assert_eq!(
        parse_comparison_and_count("equals 0"),
        Ok((Comparison::Equals, 0))
    );
}

#[test]
fn rule_words_ignore_ascii_case() {
    assert_eq!(
        parse_comparison_and_count("Less-Than 2"),
        Ok((Comparison::LessThan, 2))
    );
    assert_eq!(
        parse_comparison_and_count("EQUALS 3"),
        Ok((Comparison::Equals, 3))
    );
}

#[test]
fn count_accepts_a_leading_plus() {
    assert_eq!(
        parse_comparison_and_count("equals +7"),
        Ok((Comparison::Equals, 7))
    );
}

#[test]
fn malformed_shapes_report_their_own_error() {
    assert_eq!(
        parse_comparison_and_count("nospace"),
        Err("Invalid format. Use '<comparison> <count>' (e.g., less-than 5)".to_string())
    );
    assert_eq!(
        parse_comparison_and_count("too many parts"),
        Err("Invalid format. Use '<comparison> <count>' (e.g., less-than 5)".to_string())
    );
    assert_eq!(
        parse_comparison_and_count("between 5"),
        Err("Invalid comparison. Use less-than, greater-than, or equals.".to_string())
    );
    assert_eq!(
        parse_comparison_and_count("less-than five"),
        Err("Invalid count. Must be a positive integer.".to_string())
    );
    assert_eq!(
        parse_comparison_and_count("less-than "),
        Err("Invalid count. Must be a positive integer.".to_string())
    );
    // a count above u32::MAX is out of range
    assert_eq!(
        parse_comparison_and_count("less-than 4294967296"),
        Err("Invalid count. Must be a positive integer.".to_string())
    );
    assert_eq!(
        parse_comparison_and_count("less-than 4294967295"),
        Ok((Comparison::LessThan, u32::MAX))
    );
}

#[test]
fn block_height_answers_parse_with_whitespace() {
    assert_eq!(BlockMonitor::parse_block_height("123\n"), Ok(123));
    assert_eq!(BlockMonitor::parse_block_height("  907342 \t"), Ok(907342));
    assert_eq!(BlockMonitor::parse_block_height("0"), Ok(0));
    assert!(matches!(
        BlockMonitor::parse_block_height("not a number"),
        Err(AnalyzerError::SomethingWentWrong)
    ));
    assert!(matches!(
        BlockMonitor::parse_block_height(""),
        Err(AnalyzerError::SomethingWentWrong)
    ));
    assert!(matches!(
        BlockMonitor::parse_block_height("4294967296"),
        Err(AnalyzerError::SomethingWentWrong)
    ));
}

#[test]
fn block_hash_answers_are_trimmed() {
    assert_eq!(
        BlockMonitor::get_block_hash("  00beefcafe\n"),
        Ok("00beefcafe".to_string())
    );
    assert_eq!(BlockMonitor::get_block_hash(" \n \t"), Ok("".to_string()));
}

#[test]
fn next_target_height_is_one_above() {
    assert_eq!(BlockMonitor::get_latest_target_block(906000), Ok(906001));
    assert!(matches!(
        BlockMonitor::get_latest_target_block(u32::MAX),
        Err(AnalyzerError::SomethingWentWrong)
    ));
}
