use datacert::quality::{
    check_pii_issues, detect_pii_from_column_name, detect_pii_pattern,
    detect_pii_pattern_with_column_name, is_potential_pii, pii_from_hits,
    pii_kind_for_lower_name, PiiHits, PiiType, Severity,
};

fn refs(values: &[&'static str]) -> Vec<&'static str> {
    values.to_vec()
}

#[test]
fn test_email_detection() {
    let values = refs(&["user@example.com", "john.doe@company.org", "test@test.co.uk"]);
    assert_eq!(detect_pii_pattern(&values), Some(PiiType::Email));
}

#[test]
fn test_phone_detection() {
    let values = refs(&["(123) 456-7890", "123-456-7890", "123.456.7890", "+1-123-456-7890"]);
    assert_eq!(detect_pii_pattern(&values), Some(PiiType::Phone));
}

#[test]
fn test_ssn_detection() {
    let values = refs(&["123-45-6789", "987-65-4321", "111-22-3333"]);
    assert_eq!(detect_pii_pattern(&values), Some(PiiType::Ssn));
}

#[test]
fn test_credit_card_detection() {
    let values = refs(&["4532-1234-5678-9010", "5425 2334 3010 9903", "3782 822463 10005"]);
    assert_eq!(detect_pii_pattern(&values), Some(PiiType::CreditCard));
}

#[test]
fn test_no_pii_detection() {
    let values = refs(&["normal text", "some data", "123"]);
    assert_eq!(detect_pii_pattern(&values), None);
}

#[test]
fn test_pii_severity() {
    assert_eq!(PiiType::Email.severity(), Severity::Warning);
    assert_eq!(PiiType::Phone.severity(), Severity::Warning);
    assert_eq!(PiiType::Ssn.severity(), Severity::Error);
    assert_eq!(PiiType::CreditCard.severity(), Severity::Error);
    assert_eq!(PiiType::IpAddress.severity(), Severity::Warning);
    assert_eq!(PiiType::DateOfBirth.severity(), Severity::Warning);
    assert_eq!(PiiType::PostalCode.severity(), Severity::Info);
}

#[test]
fn test_ip_address_detection() {
    let values = refs(&["192.168.1.1", "10.0.0.1", "172.16.0.100", "8.8.8.8"]);
    assert_eq!(detect_pii_pattern(&values), Some(PiiType::IpAddress));
}

#[test]
fn test_dob_detection() {
    let values = refs(&["1990-05-15", "2000-12-01", "1985/03/22", "2010-07-04"]);
    assert_eq!(detect_pii_pattern(&values), Some(PiiType::DateOfBirth));
}

#[test]
fn test_us_postal_code_detection_with_column_hint() {
    let values = refs(&["90210", "10001", "94102-1234", "30301"]);
    let pii = detect_pii_pattern_with_column_name(&values, Some("zip_code"));
    assert_eq!(pii, Some(PiiType::PostalCode));
}

#[test]
fn test_canadian_postal_code_detection_with_column_hint() {
    let values = refs(&["M5V 2T6", "K1A 0B1", "V6B2W2", "H2X 1L4"]);
    let pii = detect_pii_pattern_with_column_name(&values, Some("postal_code"));
    assert_eq!(pii, Some(PiiType::PostalCode));
}

#[test]
fn test_column_name_heuristics() {
    assert_eq!(detect_pii_from_column_name("email"), Some(PiiType::Email));
    assert_eq!(detect_pii_from_column_name("user_email"), Some(PiiType::Email));
    assert_eq!(detect_pii_from_column_name("phone_number"), Some(PiiType::Phone));
    assert_eq!(detect_pii_from_column_name("mobile"), Some(PiiType::Phone));
    assert_eq!(detect_pii_from_column_name("ssn"), Some(PiiType::Ssn));
    assert_eq!(detect_pii_from_column_name("social_security_number"), Some(PiiType::Ssn));
    assert_eq!(detect_pii_from_column_name("street_address"), Some(PiiType::PostalCode));
    assert_eq!(detect_pii_from_column_name("zip_code"), Some(PiiType::PostalCode));
    assert_eq!(detect_pii_from_column_name("dob"), Some(PiiType::DateOfBirth));
    assert_eq!(detect_pii_from_column_name("date_of_birth"), Some(PiiType::DateOfBirth));
    assert_eq!(detect_pii_from_column_name("ip_address"), Some(PiiType::IpAddress));
    assert_eq!(detect_pii_from_column_name("client_ip"), Some(PiiType::IpAddress));

    assert_eq!(detect_pii_from_column_name("filename"), None);
    assert_eq!(detect_pii_from_column_name("pathname"), None);
    assert_eq!(detect_pii_from_column_name("amount"), None);
    assert_eq!(detect_pii_from_column_name("shipping_cost"), None);
}

#[test]
fn test_column_name_fallback() {
    let values = refs(&["random text", "some data", "other values"]);
    let pii = detect_pii_pattern_with_column_name(&values, Some("email_address"));
    assert_eq!(pii, Some(PiiType::Email));
}

#[test]
fn test_is_potential_pii() {
    assert!(is_potential_pii("email"));
    assert!(is_potential_pii("user_email"));
    assert!(is_potential_pii("FirstName"));
    assert!(!is_potential_pii("amount"));
    assert!(!is_potential_pii("quantity"));
}

#[test]
fn hundred_ssn_cells_give_an_error_issue() {
    let values: Vec<&str> = vec!["123-45-6789"; 100];
    let pii = detect_pii_pattern(&values);
    assert_eq!(pii, Some(PiiType::Ssn));
    let issues = check_pii_issues(pii, "ssn_col");
    assert_eq!(issues.len(), 1);
    assert_eq!(issues[0].severity, Severity::Error);
    assert_eq!(issues[0].id, "ssn_col_pii_SSN");
    assert_eq!(issues[0].message, "Potential PII detected: SSN");
}

#[test]
fn hundred_email_cells_give_a_warning_issue() {
    let values: Vec<&str> = vec!["someone@example.com"; 100];
    let issues = check_pii_issues(detect_pii_pattern(&values), "contact");
    assert_eq!(issues.len(), 1);
    assert_eq!(issues[0].severity, Severity::Warning);
    assert_eq!(issues[0].id, "contact_pii_email");
}

#[test]
fn ssn_needs_exact_shape() {
    let values = refs(&[" 123-45-6789 ", "123-456-789", "12-345-6789"]);
    assert_eq!(detect_pii_pattern(&values), Some(PiiType::Ssn));
    let values = refs(&["123-456-789", "12-345-6789", "1234-56-789"]);
    assert_ne!(detect_pii_pattern(&values), Some(PiiType::Ssn));
}

#[test]
fn threshold_is_thirty_percent_rounded_up() {
    let mut values: Vec<&str> = vec!["plain"; 10];
    values[0] = "a@b.io";
    values[1] = "c@d.io";
    assert_eq!(detect_pii_pattern(&values), None);
    values[2] = "e@f.io";
    assert_eq!(detect_pii_pattern(&values), Some(PiiType::Email));
}

#[test]
fn empty_sample_has_no_pii_even_with_hint() {
    let values: Vec<&str> = Vec::new();
    assert_eq!(detect_pii_pattern_with_column_name(&values, Some("email")), None);
    assert!(check_pii_issues(None, "x").is_empty());
}

#[test]
fn postal_needs_hint_and_labels() {
    let values = refs(&["90210", "10001"]);
    assert_eq!(detect_pii_pattern(&values), None);
    assert_eq!(PiiType::PostalCode.as_str(), "postal code");
    assert_eq!(PiiType::IpAddress.as_str(), "IP address");
    let issues = check_pii_issues(Some(PiiType::Phone), "p");
    assert_eq!(issues[0].id, "p_pii_phone_number");
    assert_eq!(issues[0].message, "Potential PII detected: phone number");
}

#[test]
fn verdict_from_given_hit_counts() {
    let none = PiiHits {
        email: 0,
        phone: 0,
        ssn: 0,
        credit_card: 0,
        ip_address: 0,
        date_of_birth: 0,
        postal_code: 0,
        sample_size: 10,
    };
    assert_eq!(pii_from_hits(none, None), None);
    assert_eq!(pii_from_hits(none, Some(PiiType::Phone)), Some(PiiType::Phone));
    assert_eq!(pii_from_hits(PiiHits { ssn: 3, email: 9, ..none }, None), Some(PiiType::Ssn));
    assert_eq!(pii_from_hits(PiiHits { ssn: 2, email: 3, ..none }, None), Some(PiiType::Email));
    assert_eq!(pii_from_hits(PiiHits { date_of_birth: 1, ..none }, None), None);
    assert_eq!(
        pii_from_hits(PiiHits { date_of_birth: 1, ..none }, Some(PiiType::DateOfBirth)),
        Some(PiiType::DateOfBirth)
    );
    assert_eq!(pii_from_hits(PiiHits { postal_code: 10, ..none }, None), None);
    assert_eq!(
        pii_from_hits(PiiHits { postal_code: 3, ..none }, Some(PiiType::PostalCode)),
        Some(PiiType::PostalCode)
    );
    assert_eq!(pii_from_hits(PiiHits { sample_size: 1, phone: 1, ..none }, None), Some(PiiType::Phone));
}

#[test]
fn kind_for_lowercase_names() {
    assert_eq!(pii_kind_for_lower_name("ip"), Some(PiiType::IpAddress));
    assert_eq!(pii_kind_for_lower_name("hotel"), Some(PiiType::Phone));
    assert_eq!(pii_kind_for_lower_name("Email"), None);
    assert_eq!(pii_kind_for_lower_name("birthday"), Some(PiiType::DateOfBirth));
}
