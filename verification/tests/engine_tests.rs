use ironcalc_formula::engine::{EngineError, IronCalcEngine};

fn ok_value(e: &mut IronCalcEngine, formula: &str) -> String {
    let r = e.evaluate_formula(formula, "Sheet1", 1, 1).expect("request accepted");
    assert!(r.error.is_none(), "unexpected error: {:?}", r.error);
    r.value
}

fn ok_error(e: &mut IronCalcEngine, formula: &str) -> String {
    let r = e.evaluate_formula(formula, "Sheet1", 1, 1).expect("request accepted");
    assert_eq!(r.value, "", "a failed evaluation stores empty text");
    r.error.expect("an evaluation error")
}

#[test]
fn arithmetic_addition() {
    let mut e = IronCalcEngine::new();
    assert_eq!(ok_value(&mut e, "=1+2"), "3");
}

#[test]
fn division_by_zero_is_an_evaluation_error() {
    let mut e = IronCalcEngine::new();
    assert_eq!(ok_error(&mut e, "=10/0"), "#DIV/0!");
}

#[test]
fn sum_of_five() {
    let mut e = IronCalcEngine::new();
    assert_eq!(ok_value(&mut e, "=SUM(1,2,3,4,5)"), "15");
}

#[test]
fn average_of_nothing_is_div0() {
    let mut e = IronCalcEngine::new();
    assert_eq!(ok_error(&mut e, "=AVERAGE()"), "#DIV/0!");
}

#[test]
fn if_with_comparison_picks_true_branch() {
    let mut e = IronCalcEngine::new();
    assert_eq!(ok_value(&mut e, "=IF(5>3,\"YES\",\"NO\")"), "YES");
}

#[test]
fn if_less_than_and_false_branch() {
    let mut e = IronCalcEngine::new();
    assert_eq!(ok_value(&mut e, "=IF(5<3,\"YES\",\"NO\")"), "NO");
}

#[test]
fn if_without_else_defaults_to_false_text() {
    let mut e = IronCalcEngine::new();
    assert_eq!(ok_value(&mut e, "=IF(0,\"a\")"), "FALSE");
}

#[test]
fn if_with_too_few_arguments() {
    let mut e = IronCalcEngine::new();
    assert_eq!(ok_error(&mut e, "=IF(1)"), "#VALUE!");
}

#[test]
fn arithmetic_other_operators() {
    let mut e = IronCalcEngine::new();
    assert_eq!(ok_value(&mut e, "=7-4"), "3");
    assert_eq!(ok_value(&mut e, "=2*3"), "6");
    assert_eq!(ok_value(&mut e, "=10/4"), "2.5");
    assert_eq!(ok_value(&mut e, "=1/3"), "0.33333333");
}

#[test]
fn arithmetic_with_spaces_and_decimals() {
    let mut e = IronCalcEngine::new();
    assert_eq!(ok_value(&mut e, "= 1.5 + 2.25 "), "3.75");
}

#[test]
fn trimming_covers_unicode_whitespace() {
    let mut e = IronCalcEngine::new();
    assert_eq!(ok_value(&mut e, "=\u{a0}1+2\u{000b}"), "3");
    assert_eq!(ok_value(&mut e, "\u{2003}42\u{3000}"), "42");
}

#[test]
fn multi_operator_formulas_are_unsupported() {
    let mut e = IronCalcEngine::new();
    assert_eq!(ok_error(&mut e, "=1+2+3"), "Unsupported formula: 1+2+3");
}

#[test]
fn non_numeric_operand_is_invalid_number() {
    let mut e = IronCalcEngine::new();
    assert_eq!(ok_error(&mut e, "=a+1"), "Invalid number");
}

#[test]
fn numeric_literals_normalize() {
    let mut e = IronCalcEngine::new();
    assert_eq!(ok_value(&mut e, "=2.50"), "2.5");
    assert_eq!(ok_value(&mut e, "-5"), "-5");
    assert_eq!(ok_value(&mut e, "42"), "42");
    assert_eq!(ok_value(&mut e, "+7"), "7");
}

#[test]
fn quoted_literal_is_unquoted() {
    let mut e = IronCalcEngine::new();
    assert_eq!(ok_value(&mut e, "=\"hello\""), "hello");
}

#[test]
fn unsupported_formula_carries_the_text() {
    let mut e = IronCalcEngine::new();
    assert_eq!(ok_error(&mut e, "=foo"), "Unsupported formula: foo");
}

#[test]
fn missing_closing_parenthesis() {
    let mut e = IronCalcEngine::new();
    assert_eq!(ok_error(&mut e, "=SUM(1,2"), "Missing closing parenthesis");
}

#[test]
fn max_min_count() {
    let mut e = IronCalcEngine::new();
    assert_eq!(ok_value(&mut e, "=MAX(3,9,4)"), "9");
    assert_eq!(ok_value(&mut e, "=MIN(3,-2,4)"), "-2");
    assert_eq!(ok_value(&mut e, "=COUNT(1,a,2,,3)"), "3");
    assert_eq!(ok_error(&mut e, "=MAX(a,b)"), "#VALUE!");
    assert_eq!(ok_error(&mut e, "=MIN()"), "#VALUE!");
}

#[test]
fn sum_skips_unparseable_arguments() {
    let mut e = IronCalcEngine::new();
    assert_eq!(ok_value(&mut e, "=SUM(1,x,2)"), "3");
    assert_eq!(ok_value(&mut e, "=SUM()"), "0");
}

#[test]
fn average_of_two() {
    let mut e = IronCalcEngine::new();
    assert_eq!(ok_value(&mut e, "=AVERAGE(1,2)"), "1.5");
}

#[test]
fn cell_address_letters() {
    let mut e = IronCalcEngine::new();
    let r = e.evaluate_formula("=1", "Sheet1", 3, 2).unwrap();
    assert_eq!(r.cell_address, "B3");
    let r = e.evaluate_formula("=1", "Sheet1", 1, 27).unwrap();
    assert_eq!(r.cell_address, "AA1");
    let r = e.evaluate_formula("=1", "Sheet1", 1048576, 16384).unwrap();
    assert_eq!(r.cell_address, "XFD1048576");
}

#[test]
fn formula_type_tags() {
    let mut e = IronCalcEngine::new();
    assert_eq!(e.evaluate_formula("SUM(1)", "Sheet1", 1, 1).unwrap().formula_type, "aggregate");
    assert_eq!(e.evaluate_formula("IF(1,2,3)", "Sheet1", 1, 2).unwrap().formula_type, "logical");
    assert_eq!(e.evaluate_formula("=1+2", "Sheet1", 1, 3).unwrap().formula_type, "arithmetic");
    assert_eq!(e.evaluate_formula("42", "Sheet1", 1, 4).unwrap().formula_type, "literal");
    // the tag is computed on the raw text, so the leading `=` hides a
    // function opener from the classifier
    assert_eq!(e.evaluate_formula("=SUM(1)", "Sheet1", 1, 5).unwrap().formula_type, "literal");
    assert_eq!(e.evaluate_formula("=foo", "Sheet1", 1, 6).unwrap().formula_type, "error");
}

#[test]
fn set_then_get_round_trip() {
    let mut e = IronCalcEngine::new();
    e.set_cell_value_js("Sheet1", 1, 1, "hello").unwrap();
    assert_eq!(e.get_cell_value("Sheet1", 1, 1).unwrap(), "hello");
    e.set_cell_value_js("Sheet1", 1048576, 16384, "corner").unwrap();
    assert_eq!(e.get_cell_value("Sheet1", 1048576, 16384).unwrap(), "corner");
    e.set_cell_value_js("Sheet1", 1, 1, "overwritten").unwrap();
    assert_eq!(e.get_cell_value("Sheet1", 1, 1).unwrap(), "overwritten");
}

#[test]
fn round_trip_keeps_unicode_text() {
    let mut e = IronCalcEngine::new();
    e.set_cell_value_js("Sheet1", 5, 5, "héllo ☃").unwrap();
    assert_eq!(e.get_cell_value("Sheet1", 5, 5).unwrap(), "héllo ☃");
}

#[test]
fn unwritten_cell_reads_as_empty_text() {
    let e = IronCalcEngine::new();
    assert_eq!(e.get_cell_value("Sheet1", 99, 99).unwrap(), "");
}

#[test]
fn missing_sheet_is_an_error() {
    let e = IronCalcEngine::new();
    let err = e.get_cell_value("Nowhere", 1, 1).unwrap_err();
    assert_eq!(err.message(), "Sheet 'Nowhere' not found");
}

#[test]
fn reference_validation_rejects_out_of_range() {
    let mut e = IronCalcEngine::new();
    let err = e.evaluate_formula("=1", "Sheet1", 0, 1).unwrap_err();
    assert_eq!(err.message(), "Invalid row: 0 (must be 1-1048576)");
    let err = e.evaluate_formula("=1", "Sheet1", 1048577, 1).unwrap_err();
    assert_eq!(err.message(), "Invalid row: 1048577 (must be 1-1048576)");
    let err = e.evaluate_formula("=1", "Sheet1", 1, 0).unwrap_err();
    assert_eq!(err.message(), "Invalid column: 0 (must be 1-16384)");
    let err = e.evaluate_formula("=1", "Sheet1", 1, 16385).unwrap_err();
    assert_eq!(err.message(), "Invalid column: 16385 (must be 1-16384)");
    let err = e.evaluate_formula("=1", "", 1, 1).unwrap_err();
    assert_eq!(err.message(), "Sheet name cannot be empty");
    let long = "x".repeat(32);
    let err = e.evaluate_formula("=1", &long, 1, 1).unwrap_err();
    assert_eq!(err.message(), "Sheet name too long (max 31 characters)");
    let err = e.set_cell_value_js("Sheet1", 0, 1, "v").unwrap_err();
    assert_eq!(err.message(), "Invalid row: 0 (must be 1-1048576)");
}

#[test]
fn empty_formula_rejects_and_changes_nothing() {
    let mut e = IronCalcEngine::new();
    let err = e.evaluate_formula("", "Sheet1", 1, 1).unwrap_err();
    assert!(matches!(err, EngineError::EmptyFormula));
    assert_eq!(err.message(), "Formula cannot be empty");
    let m = e.get_performance_metrics();
    assert_eq!(m.total_evaluations, 0);
    assert_eq!(e.get_cell_value("Sheet1", 1, 1).unwrap(), "");
}

#[test]
fn oversized_formula_rejects_regardless_of_content() {
    let mut e = IronCalcEngine::new();
    let long = format!("={}", "1".repeat(8192));
    let err = e.evaluate_formula(&long, "Sheet1", 1, 1).unwrap_err();
    assert!(matches!(err, EngineError::FormulaTooLong));
    assert_eq!(err.message(), "Formula too long (max 8192 characters)");
    let m = e.get_performance_metrics();
    assert_eq!(m.total_evaluations, 0);
}

#[test]
fn evaluation_writes_the_cell_with_its_formula() {
    let mut e = IronCalcEngine::new();
    e.evaluate_formula("=1+2", "Sheet1", 2, 3).unwrap();
    assert_eq!(e.get_cell_value("Sheet1", 2, 3).unwrap(), "3");
    // a failed evaluation still writes, storing empty text
    e.evaluate_formula("=oops", "Sheet1", 4, 4).unwrap();
    assert_eq!(e.get_cell_value("Sheet1", 4, 4).unwrap(), "");
}

#[test]
fn repeat_evaluation_hits_the_cache() {
    let mut e = IronCalcEngine::new();
    let first = e.evaluate_formula("=SUM(1,2)", "Sheet1", 1, 1).unwrap();
    let m = e.get_performance_metrics();
    assert_eq!(m.total_evaluations, 1);
    assert_eq!(m.cache_hits, 0);
    assert_eq!(m.evaluated_count, 1);
    let second = e.evaluate_formula("=SUM(1,2)", "Sheet1", 1, 1).unwrap();
    assert_eq!(second.value, first.value);
    assert_eq!(second.error, first.error);
    assert_eq!(second.execution_time_ms, first.execution_time_ms);
    assert_eq!(second.cell_address, first.cell_address);
    assert_eq!(second.formula_type, first.formula_type);
    let m = e.get_performance_metrics();
    assert_eq!(m.total_evaluations, 2);
    assert_eq!(m.cache_hits, 1);
    assert_eq!(m.evaluated_count, 1);
    // a different address is a different key
    e.evaluate_formula("=SUM(1,2)", "Sheet1", 1, 2).unwrap();
    let m = e.get_performance_metrics();
    assert_eq!(m.cache_hits, 1);
    assert_eq!(m.evaluated_count, 2);
}

#[test]
fn clear_cache_forces_reevaluation() {
    let mut e = IronCalcEngine::new();
    e.evaluate_formula("=1+1", "Sheet1", 1, 1).unwrap();
    e.clear_cache();
    e.evaluate_formula("=1+1", "Sheet1", 1, 1).unwrap();
    let m = e.get_performance_metrics();
    assert_eq!(m.cache_hits, 0);
    assert_eq!(m.evaluated_count, 2);
}

#[test]
fn full_cache_stops_retaining() {
    let mut e = IronCalcEngine::new();
    for i in 0..10000u32 {
        let f = format!("={}", i);
        let r = e.evaluate_formula(&f, "Sheet1", 1, 1).unwrap();
        assert!(r.error.is_none());
    }
    let m = e.get_performance_metrics();
    assert_eq!(m.evaluated_count, 10000);
    assert_eq!(m.cache_hits, 0);
    // the cache is full: a fresh combination evaluates correctly but is
    // not retained, so the identical call evaluates again
    let r = e.evaluate_formula("=77777", "Sheet1", 2, 2).unwrap();
    assert_eq!(r.value, "77777");
    let r = e.evaluate_formula("=77777", "Sheet1", 2, 2).unwrap();
    assert_eq!(r.value, "77777");
    let m = e.get_performance_metrics();
    assert_eq!(m.evaluated_count, 10002);
    assert_eq!(m.cache_hits, 0);
    // keys cached before the cap still hit
    e.evaluate_formula("=0", "Sheet1", 1, 1).unwrap();
    let m = e.get_performance_metrics();
    assert_eq!(m.cache_hits, 1);
}

#[test]
fn create_sheet_and_write_to_it() {
    let mut e = IronCalcEngine::new();
    e.create_sheet("Data").unwrap();
    e.set_cell_value_js("Data", 1, 1, "42").unwrap();
    assert_eq!(e.get_cell_value("Data", 1, 1).unwrap(), "42");
    // the default sheet is untouched
    assert_eq!(e.get_cell_value("Sheet1", 1, 1).unwrap(), "");
    let err = e.create_sheet("Data").unwrap_err();
    assert_eq!(err.message(), "Sheet 'Data' already exists");
    let err = e.create_sheet("Sheet1").unwrap_err();
    assert!(matches!(err, EngineError::DuplicateSheet(_)));
}

#[test]
fn average_execution_time_is_the_mean_of_samples() {
    let mut e = IronCalcEngine::new();
    let mut sum: u64 = 0;
    let formulas = ["=1+2", "=SUM(1,2,3)", "=10/0", "=MAX(4,5)", "=COUNT(1,2)"];
    for f in formulas.iter() {
        let r = e.evaluate_formula(f, "Sheet1", 1, 1).unwrap();
        sum += r.execution_time_ms as u64;
    }
    // a cache hit adds no latency sample
    e.evaluate_formula("=1+2", "Sheet1", 1, 1).unwrap();
    let m = e.get_performance_metrics();
    assert_eq!(m.evaluated_count, 5);
    assert_eq!(m.total_execution_time_ms, sum);
    assert_eq!(m.total_evaluations, 6);
    let average = m.total_execution_time_ms as f64 / m.evaluated_count as f64;
    assert_eq!(average, sum as f64 / 5.0);
}

#[test]
fn error_rate_counts_failed_evaluations() {
    let mut e = IronCalcEngine::new();
    e.evaluate_formula("=1+2", "Sheet1", 1, 1).unwrap();
    e.evaluate_formula("=10/0", "Sheet1", 1, 2).unwrap();
    e.evaluate_formula("=nope", "Sheet1", 1, 3).unwrap();
    let m = e.get_performance_metrics();
    assert_eq!(m.error_count, 2);
    assert_eq!(m.evaluated_count, 3);
}

#[test]
fn memory_usage_grows_with_cells_and_cache() {
    let mut e = IronCalcEngine::new();
    let base = e.get_memory_usage();
    assert!(base > 0);
    e.set_cell_value_js("Sheet1", 1, 1, "x").unwrap();
    assert!(e.get_memory_usage() > base);
    let with_cell = e.get_memory_usage();
    e.evaluate_formula("=1", "Sheet1", 1, 2).unwrap();
    assert!(e.get_memory_usage() > with_cell);
}

#[test]
fn condition_without_operators_parses_as_number() {
    let mut e = IronCalcEngine::new();
    assert_eq!(ok_value(&mut e, "=IF(2,\"t\",\"f\")"), "t");
    assert_eq!(ok_value(&mut e, "=IF(junk,\"t\",\"f\")"), "f");
    assert_eq!(ok_value(&mut e, "=IF(1>2,\"t\",\"f\")"), "f");
    // a non-numeric comparison operand makes the condition false
    assert_eq!(ok_value(&mut e, "=IF(a>1,\"t\",\"f\")"), "f");
}

#[test]
fn writes_to_a_missing_sheet_are_rejected() {
    let mut e = IronCalcEngine::new();
    let err = e.evaluate_formula("=1", "Ghost", 1, 1).unwrap_err();
    assert_eq!(err.message(), "Sheet 'Ghost' not found");
    // a rejected request touches no telemetry and no cache
    let m = e.get_performance_metrics();
    assert_eq!(m.total_evaluations, 0);
    let err = e.set_cell_value_js("Ghost", 1, 1, "v").unwrap_err();
    assert!(matches!(err, EngineError::SheetNotFound(_)));
}

#[test]
fn default_metrics_are_zeroed() {
    let m = ironcalc_formula::metrics::PerformanceMetrics::default();
    assert_eq!(m.total_evaluations, 0);
    assert_eq!(m.total_execution_time_ms, 0);
    assert_eq!(m.error_count, 0);
    assert_eq!(m.cache_hits, 0);
    assert_eq!(m.memory_usage_bytes, 0);
}

#[test]
fn branch_text_is_not_evaluated() {
    let mut e = IronCalcEngine::new();
    assert_eq!(ok_value(&mut e, "=IF(1,1+1,3)"), "1+1");
}
