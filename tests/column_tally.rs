use datacert::categorical::CategoricalAccumulator;
use datacert::column::{classify_cell, resolve_type, trim_cell, CellClass, ColumnTally};
use datacert::quality::PiiType;
use datacert::types::DataType;

fn finite(t: &str) -> bool {
    t.parse::<f64>().map(|v| v.is_finite()).unwrap_or(false)
}

fn feed(tally: &mut ColumnTally, cells: &[&str]) {
    for (i, c) in cells.iter().enumerate() {
        let t = trim_cell(c);
        tally.update(c, i + 1, finite(&t));
    }
}

#[test]
fn classifies_cells_in_rule_order() {
    assert_eq!(classify_cell("", false), CellClass::Missing);
    assert_eq!(classify_cell("NULL", false), CellClass::Missing);
    assert_eq!(classify_cell("N/a", false), CellClass::Missing);
    assert_eq!(classify_cell("-42", true), CellClass::Integer);
    assert_eq!(classify_cell("+7", true), CellClass::Integer);
    assert_eq!(classify_cell("9223372036854775808", true), CellClass::Numeric);
    assert_eq!(classify_cell("3.5", true), CellClass::Numeric);
    assert_eq!(classify_cell("TRUE", false), CellClass::Boolean);
    assert_eq!(classify_cell("f", false), CellClass::Boolean);
    assert_eq!(classify_cell("2024-01-15", false), CellClass::Date);
    assert_eq!(classify_cell("12/31/99", false), CellClass::Date);
    assert_eq!(classify_cell("a-b-c-d-e", false), CellClass::Text);
    assert_eq!(classify_cell("hello", false), CellClass::Text);
}

#[test]
fn trims_with_unicode_whitespace() {
    assert_eq!(trim_cell("  x y\t\n"), "x y");
    assert_eq!(trim_cell("\u{a0}z\u{3000}"), "z");
    assert_eq!(trim_cell("   "), "");
}

#[test]
fn tally_counts_and_lengths() {
    let mut tally = ColumnTally::new();
    feed(&mut tally, &["1", "2", "", "null", "abc", " 10 "]);
    assert_eq!(tally.count, 6);
    assert_eq!(tally.missing, 2);
    assert_eq!(tally.total_valid, 4);
    assert_eq!(tally.integer_count, 3);
    assert_eq!(tally.numeric_count, 3);
    assert_eq!(tally.min_length, Some(1));
    assert_eq!(tally.max_length, Some(3));
    assert_eq!(tally.missing_rows, vec![3, 4]);
    assert_eq!(tally.sample_values, vec!["1", "2", "abc", "10"]);
    assert_eq!(tally.inferred_type(), DataType::String);
    assert!(tally.mostly_numeric());
}

#[test]
fn resolves_types() {
    assert_eq!(resolve_type(0, 0, 0, 0, 0), DataType::Null);
    assert_eq!(resolve_type(3, 3, 3, 0, 0), DataType::Integer);
    assert_eq!(resolve_type(3, 1, 3, 0, 0), DataType::Numeric);
    assert_eq!(resolve_type(2, 0, 0, 2, 0), DataType::Boolean);
    assert_eq!(resolve_type(2, 0, 0, 0, 2), DataType::Date);
    assert_eq!(resolve_type(2, 0, 1, 0, 1), DataType::String);
}

#[test]
fn samples_are_distinct_and_capped() {
    let mut tally = ColumnTally::new();
    feed(&mut tally, &["a", "a", "b", "c", "d", "e", "f", "g"]);
    assert_eq!(tally.sample_values, vec!["a", "b", "c", "d", "e"]);
    assert_eq!(tally.pii_samples.len(), 8);
}

#[test]
fn pii_rows_follow_actual_hits() {
    let mut tally = ColumnTally::new();
    feed(&mut tally, &["a@b.io", "nothing", "c@d.io", ""]);
    assert_eq!(tally.detect_pii(), Some(PiiType::Email));
    assert_eq!(tally.pii_rows(PiiType::Email), vec![1, 3]);
}

#[test]
fn categorical_top_values_ranked_stably() {
    let mut acc = CategoricalAccumulator::new(1000);
    for v in ["b", "a", "b", "c", "a", "d"] {
        acc.update(v);
    }
    let stats = acc.finalize();
    let top: Vec<(String, u64)> = stats.top_values.iter().map(|e| (e.value.clone(), e.count)).collect();
    assert_eq!(
        top,
        vec![
            ("b".to_string(), 2),
            ("a".to_string(), 2),
            ("c".to_string(), 1),
            ("d".to_string(), 1)
        ]
    );
    assert_eq!(stats.unique_count, 4);
    assert_eq!(stats.total_count, 6);
}

#[test]
fn categorical_cap_and_top_ten() {
    let mut acc = CategoricalAccumulator::new(12);
    for i in 0..20u32 {
        let v = format!("v{}", i);
        for _ in 0..(i % 3 + 1) {
            acc.update(&v);
        }
    }
    let stats = acc.finalize();
    assert_eq!(stats.unique_count, 12);
    assert_eq!(stats.top_values.len(), 10);
    assert_eq!(stats.top_values[0].value, "v2");
    assert_eq!(stats.top_values[0].count, 3);
    assert_eq!(stats.top_values[4].value, "v1");
    assert_eq!(stats.top_values[4].count, 2);
    acc.update("v0");
    assert_eq!(acc.finalize().top_values.iter().find(|e| e.value == "v0").unwrap().count, 2);
}

#[test]
fn categorical_is_order_insensitive_up_to_ties() {
    let mut a = CategoricalAccumulator::new(1000);
    let mut b = CategoricalAccumulator::new(1000);
    for v in ["x", "y", "y", "z", "y"] {
        a.update(v);
    }
    for v in ["y", "z", "y", "x", "y"] {
        b.update(v);
    }
    let (sa, sb) = (a.finalize(), b.finalize());
    assert_eq!(sa.top_values[0].value, sb.top_values[0].value);
    assert_eq!(sa.top_values[0].count, 3);
    assert_eq!(sa.unique_count, sb.unique_count);
}
