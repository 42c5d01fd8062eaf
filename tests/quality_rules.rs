use datacert::duplicates::DuplicateDetector;
use datacert::quality::{
    check_completeness_issues, check_duplicate_issues, check_uniqueness_issues, Severity,
};
use datacert::types::DataType;

fn row(cells: &[&str]) -> Vec<String> {
    cells.iter().map(|c| c.to_string()).collect()
}

#[test]
fn test_duplicate_detection() {
    let mut detector = DuplicateDetector::new();
    let rows = vec![
        row(&["a", "b", "c"]),
        row(&["d", "e", "f"]),
        row(&["a", "b", "c"]),
        row(&["g", "h", "i"]),
        row(&["d", "e", "f"]),
    ];
    detector.process_batch(&rows);
    assert_eq!(detector.total_rows(), 5);
    assert_eq!(detector.duplicate_count(), 2);
    let percentage = detector.duplicate_count() as f64 / detector.total_rows() as f64 * 100.0;
    assert_eq!(percentage, 40.0);
    let issues = check_duplicate_issues(detector.duplicate_count(), detector.total_rows());
    assert_eq!(issues.len(), 1);
    assert_eq!(issues[0].severity, Severity::Error);
    assert_eq!(issues[0].id, "duplicate_rows");
    assert_eq!(issues[0].message, "2 duplicate rows detected (40.00% of total)");
}

#[test]
fn test_no_duplicates() {
    let mut detector = DuplicateDetector::new();
    let rows = vec![row(&["a", "b"]), row(&["c", "d"]), row(&["e", "f"])];
    detector.process_batch(&rows);
    assert_eq!(detector.duplicate_count(), 0);
    assert_eq!(detector.total_rows(), 3);
    assert!(check_duplicate_issues(0, 3).is_empty());
}

#[test]
fn duplicates_across_batches() {
    let mut detector = DuplicateDetector::new();
    detector.process_batch(&[row(&["x"]), row(&["y"])]);
    detector.process_batch(&[row(&["y"]), row(&["x"]), row(&["x", "y"])]);
    assert_eq!(detector.total_rows(), 5);
    assert_eq!(detector.duplicate_count(), 2);
}

#[test]
fn test_duplicate_issues_severity() {
    let issues = check_duplicate_issues(15, 100);
    assert_eq!(issues.len(), 1);
    assert_eq!(issues[0].severity, Severity::Error);

    let issues = check_duplicate_issues(5, 100);
    assert_eq!(issues.len(), 1);
    assert_eq!(issues[0].severity, Severity::Warning);

    let issues = check_duplicate_issues(5, 1000);
    assert_eq!(issues.len(), 1);
    assert_eq!(issues[0].severity, Severity::Info);
    assert_eq!(issues[0].message, "5 duplicate rows detected (0.50% of total)");

    let issues = check_duplicate_issues(0, 0);
    assert_eq!(issues.len(), 0);
}

#[test]
fn duplicate_severity_boundaries() {
    assert_eq!(check_duplicate_issues(10, 100)[0].severity, Severity::Warning);
    assert_eq!(check_duplicate_issues(1, 100)[0].severity, Severity::Info);
    assert_eq!(check_duplicate_issues(11, 100)[0].severity, Severity::Error);
}

#[test]
fn test_completeness_issues() {
    let issues = check_completeness_issues(100, 15, "test_col");
    assert_eq!(issues.len(), 1);
    assert_eq!(issues[0].severity, Severity::Warning);
    assert_eq!(issues[0].id, "test_col_completeness_warning");
    assert_eq!(issues[0].message, "Completeness is 85.0% (below 90% threshold)");

    let issues = check_completeness_issues(100, 60, "test_col");
    assert_eq!(issues.len(), 1);
    assert_eq!(issues[0].severity, Severity::Error);
    assert_eq!(issues[0].message, "Critical: Only 40.0% of values are present");

    let issues = check_completeness_issues(100, 0, "test_col");
    assert_eq!(issues.len(), 0);
}

#[test]
fn completeness_info_and_empty_column() {
    let issues = check_completeness_issues(100, 5, "c");
    assert_eq!(issues.len(), 1);
    assert_eq!(issues[0].severity, Severity::Info);
    assert_eq!(issues[0].message, "Completeness is 95.0%");
    assert!(check_completeness_issues(0, 0, "c").is_empty());
    assert_eq!(check_completeness_issues(3, 2, "c")[0].message, "Critical: Only 33.3% of values are present");
}

#[test]
fn test_constant_column_detection() {
    let issues = check_uniqueness_issues(100, 0, 1, "test_col", DataType::String);
    assert!(issues.iter().any(|i| i.message.contains("constant")));
    assert_eq!(issues[0].severity, Severity::Warning);
    assert_eq!(issues[0].id, "test_col_constant_column");
}

#[test]
fn test_high_cardinality_warning() {
    let issues = check_uniqueness_issues(100, 0, 95, "test_col", DataType::String);
    assert!(issues.iter().any(|i| i.message.contains("High cardinality")));
    assert_eq!(
        issues[0].message,
        "High cardinality: 95.0% unique values (potential identifier or free text)"
    );

    let issues = check_uniqueness_issues(100, 0, 95, "test_col", DataType::Integer);
    assert!(!issues.iter().any(|i| i.message.contains("High cardinality")));
}

#[test]
fn uniqueness_of_empty_and_middle_columns() {
    assert!(check_uniqueness_issues(100, 15, 40, "c", DataType::String).is_empty());
    let issues = check_uniqueness_issues(10, 10, 0, "c", DataType::String);
    assert_eq!(issues.len(), 1);
    assert_eq!(issues[0].severity, Severity::Info);
    assert!(check_uniqueness_issues(100, 0, 0, "c", DataType::Integer).is_empty());
}
