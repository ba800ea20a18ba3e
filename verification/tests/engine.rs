use sheetcalc::sheet::RecomputeError;
use sheetcalc::sheet::Spreadsheet;
use sheetcalc::store::get_cell_ref_split;
use sheetcalc::text::get_column_header;

#[test]
fn column_label_examples() {
    assert_eq!(get_column_header(0), "A");
    assert_eq!(get_column_header(25), "Z");
    assert_eq!(get_column_header(26), "AA");
    assert_eq!(get_column_header(701), "ZZ");
    assert_eq!(get_column_header(702), "AAA");
}

#[test]
fn reference_split_examples() {
    assert_eq!(get_cell_ref_split("B12"), ("B".to_string(), "12".to_string()));
    assert_eq!(get_cell_ref_split("AZ7"), ("AZ".to_string(), "7".to_string()));
}

#[test]
fn reference_split_edge_cases() {
    assert_eq!(get_cell_ref_split("AZ"), ("AZ".to_string(), "".to_string()));
    assert_eq!(get_cell_ref_split("a1"), ("".to_string(), "a1".to_string()));
    assert_eq!(get_cell_ref_split(""), ("".to_string(), "".to_string()));
    assert_eq!(get_cell_ref_split("A1B2"), ("A".to_string(), "1B2".to_string()));
}

#[test]
fn literal_round_trip() {
    let mut s = Spreadsheet::new();
    s.set_cell_value("A1", "5");
    let c = s.get_cell("A1").unwrap();
    assert_eq!(c.value(), "5");
    assert!(c.formula().is_none());
}

#[test]
fn unwritten_cell_reads_as_missing() {
    let s = Spreadsheet::new();
    assert!(s.get_cell("Q7").is_none());
}

#[test]
fn arithmetic_via_reference() {
    let mut s = Spreadsheet::new();
    s.set_cell_value("A1", "5");
    s.set_cell_value("A2", "=A1+3");
    let c = s.get_cell("A2").unwrap();
    assert_eq!(c.value(), "8");
    assert_eq!(c.formula().as_deref(), Some("=A1+3"));
}

#[test]
fn division_by_zero_sentinel() {
    let mut s = Spreadsheet::new();
    s.set_cell_value("A1", "=5/0");
    assert_eq!(s.get_cell("A1").unwrap().value(), "#DIV/0!");
}

#[test]
fn unary_minus_and_precedence() {
    let mut s = Spreadsheet::new();
    s.set_cell_value("A1", "=-5+3");
    assert_eq!(s.get_cell("A1").unwrap().value(), "-2");
    s.set_cell_value("A1", "=2+3*4");
    assert_eq!(s.get_cell("A1").unwrap().value(), "14");
    s.set_cell_value("A1", "=(2+3)*4");
    assert_eq!(s.get_cell("A1").unwrap().value(), "20");
}

#[test]
fn unresolved_reference_is_invalid() {
    let mut s = Spreadsheet::new();
    s.set_cell_value("A1", "=Z99+1");
    assert_eq!(s.get_cell("A1").unwrap().value(), "invalid");
}

#[test]
fn reactivity_propagates_to_dependents() {
    let mut s = Spreadsheet::new();
    s.set_cell_value("A1", "5");
    s.set_cell_value("A2", "=A1+1");
    assert_eq!(s.get_cell("A2").unwrap().value(), "6");
    s.set_cell_value("A1", "10");
    assert_eq!(s.get_cell("A2").unwrap().value(), "11");
}

#[test]
fn reactivity_is_transitive() {
    let mut s = Spreadsheet::new();
    s.set_cell_value("A1", "1");
    s.set_cell_value("A2", "=A1+1");
    s.set_cell_value("A3", "=A2+1");
    s.set_cell_value("A1", "10");
    assert_eq!(s.get_cell("A2").unwrap().value(), "11");
    assert_eq!(s.get_cell("A3").unwrap().value(), "12");
}

#[test]
fn literal_write_idempotent() {
    let mut s = Spreadsheet::new();
    s.set_cell_value("A1", "hello");
    let v1 = s.get_cell("A1").unwrap().value().clone();
    let f1 = s.get_cell("A1").unwrap().formula().clone();
    s.set_cell_value("A1", "hello");
    let v2 = s.get_cell("A1").unwrap().value().clone();
    let f2 = s.get_cell("A1").unwrap().formula().clone();
    assert_eq!(v1, v2);
    assert_eq!(f1, f2);
}

#[test]
fn acyclic_formula_write_idempotent() {
    let mut s = Spreadsheet::new();
    s.set_cell_value("A1", "5");
    s.set_cell_value("A2", "=A1+3");
    let v1 = s.get_cell("A2").unwrap().value().clone();
    s.set_cell_value("A2", "=A1+3");
    let v2 = s.get_cell("A2").unwrap().value().clone();
    assert_eq!(v1, "8");
    assert_eq!(v1, v2);
}

#[test]
fn cyclic_formulas_terminate() {
    let mut s = Spreadsheet::new();
    s.set_cell_value("A1", "1");
    s.set_cell_value("B1", "2");
    s.set_cell_value("A1", "=B1");
    s.set_cell_value("B1", "=A1+1");
    // a further write into the cycle must still return
    s.set_cell_value("A1", "5");
    assert!(s.get_cell("A1").is_some());
    assert!(s.get_cell("B1").is_some());
}

#[test]
fn empty_expression_is_undefined() {
    let mut s = Spreadsheet::new();
    s.set_cell_value("A1", "=");
    assert_eq!(s.get_cell("A1").unwrap().value(), "undefined");
}

#[test]
fn unknown_token_is_invalid() {
    let mut s = Spreadsheet::new();
    s.set_cell_value("A1", "=foo");
    assert_eq!(s.get_cell("A1").unwrap().value(), "invalid");
}

#[test]
fn non_numeric_reference_is_invalid() {
    let mut s = Spreadsheet::new();
    s.set_cell_value("A1", "hello");
    s.set_cell_value("A2", "=A1+1");
    assert_eq!(s.get_cell("A2").unwrap().value(), "invalid");
}

#[test]
fn sentinel_value_poisons_dependents() {
    let mut s = Spreadsheet::new();
    s.set_cell_value("A1", "=5/0");
    s.set_cell_value("A2", "=A1+1");
    assert_eq!(s.get_cell("A2").unwrap().value(), "invalid");
}

#[test]
fn init_cell_stores_raw_text() {
    let mut s = Spreadsheet::new();
    s.init_cell("A1", "=B1+1");
    let c = s.get_cell("A1").unwrap();
    assert_eq!(c.value(), "=B1+1");
    assert!(c.formula().is_none());
}

#[test]
fn init_cell_does_not_propagate() {
    let mut s = Spreadsheet::new();
    s.set_cell_value("A1", "1");
    s.set_cell_value("A2", "=A1");
    assert_eq!(s.get_cell("A2").unwrap().value(), "1");
    s.init_cell("A1", "9");
    // the raw path neither interprets nor recomputes
    assert_eq!(s.get_cell("A2").unwrap().value(), "1");
}

#[test]
fn get_cell_split_uses_label_and_one_based_row() {
    let mut s = Spreadsheet::new();
    s.set_cell_value("A1", "5");
    s.set_cell_value("AA10", "7");
    assert_eq!(s.get_cell_split(0, 0).unwrap().value(), "5");
    assert_eq!(s.get_cell_split(26, 9).unwrap().value(), "7");
    assert!(s.get_cell_split(1, 0).is_none());
}

#[test]
fn get_dependencies_extracts_references_in_order() {
    let s = Spreadsheet::new();
    assert_eq!(s.get_dependencies("=A1+B2*AA10"), vec!["A1", "B2", "AA10"]);
    assert_eq!(s.get_dependencies("=A1+A1"), vec!["A1", "A1"]);
    assert_eq!(s.get_dependencies("=a1+12"), Vec::<String>::new());
    assert_eq!(s.get_dependencies("AB+C3"), vec!["C3"]);
}

#[test]
fn literal_overwrite_clears_formula() {
    let mut s = Spreadsheet::new();
    s.set_cell_value("A1", "=2+3");
    assert_eq!(s.get_cell("A1").unwrap().value(), "5");
    s.set_cell_value("A1", "7");
    let c = s.get_cell("A1").unwrap();
    assert_eq!(c.value(), "7");
    assert!(c.formula().is_none());
}

#[test]
fn division_truncates_toward_zero() {
    let mut s = Spreadsheet::new();
    s.set_cell_value("A1", "=7/2");
    assert_eq!(s.get_cell("A1").unwrap().value(), "3");
    s.set_cell_value("A1", "=-7/2");
    assert_eq!(s.get_cell("A1").unwrap().value(), "-3");
}

#[test]
fn fractional_literal_truncates() {
    let mut s = Spreadsheet::new();
    s.set_cell_value("A1", "=2.5+1");
    assert_eq!(s.get_cell("A1").unwrap().value(), "3");
}

#[test]
fn empty_valued_reference_reads_as_zero() {
    let mut s = Spreadsheet::new();
    s.set_cell_value("A1", "");
    s.set_cell_value("A2", "=A1+1");
    assert_eq!(s.get_cell("A2").unwrap().value(), "1");
}

#[test]
fn out_of_range_literal_is_invalid() {
    let mut s = Spreadsheet::new();
    s.set_cell_value("A1", "=9223372036854775807");
    assert_eq!(s.get_cell("A1").unwrap().value(), "9223372036854775807");
    s.set_cell_value("A1", "=9223372036854775808");
    assert_eq!(s.get_cell("A1").unwrap().value(), "invalid");
}

#[test]
fn whitespace_is_skipped() {
    let mut s = Spreadsheet::new();
    s.set_cell_value("A1", "= 2 + 3");
    assert_eq!(s.get_cell("A1").unwrap().value(), "5");
}

#[test]
fn self_referential_formula_settles_after_one_propagation() {
    let mut s = Spreadsheet::new();
    s.set_cell_value("A1", "1");
    // evaluated once against the old value, then recomputed once by the
    // propagation that visits the cell's own edge
    s.set_cell_value("A1", "=A1+1");
    assert_eq!(s.get_cell("A1").unwrap().value(), "3");
}

#[test]
fn literal_not_starting_with_equals_is_never_evaluated() {
    let mut s = Spreadsheet::new();
    s.set_cell_value("A1", "2+3");
    assert_eq!(s.get_cell("A1").unwrap().value(), "2+3");
}

#[test]
fn evaluate_cell_reports_missing_cell_and_formula() {
    let mut s = Spreadsheet::new();
    assert!(matches!(s.evaluate_cell("A1"), Err(RecomputeError::MissingCell)));
    s.set_cell_value("A1", "5");
    assert!(matches!(s.evaluate_cell("A1"), Err(RecomputeError::MissingFormula)));
    s.set_cell_value("A2", "=A1+1");
    let c = s.evaluate_cell("A2").unwrap();
    assert_eq!(c.value(), "6");
    assert_eq!(c.formula().as_deref(), Some("=A1+1"));
}

#[test]
fn evaluate_formula_returns_non_formula_text_unchanged() {
    let s = Spreadsheet::new();
    assert_eq!(s.evaluate_formula("plain text"), "plain text");
    assert_eq!(s.evaluate_formula("=1+2"), "3");
}

#[test]
fn minus_after_operator_is_unary() {
    let mut s = Spreadsheet::new();
    s.set_cell_value("A1", "=5--3");
    assert_eq!(s.get_cell("A1").unwrap().value(), "8");
    s.set_cell_value("A1", "=2*-3");
    assert_eq!(s.get_cell("A1").unwrap().value(), "-6");
}

#[test]
fn minus_after_whitespace_is_binary_and_lacks_an_operand() {
    let mut s = Spreadsheet::new();
    // the unary test looks at the raw previous character, here a space
    s.set_cell_value("A1", "= -5");
    assert_eq!(s.get_cell("A1").unwrap().value(), "invalid");
}
