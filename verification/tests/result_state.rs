use pkcs12cracker::types::CrackResult;

#[test]
fn test_crack_result() {
    let mut result = CrackResult::new();
    result.increment_attempts();
    assert_eq!(result.get_attempts(), 1);
}

#[test]
fn new_result_is_empty() {
    let result = CrackResult::new();
    assert!(!result.is_found());
    let (password, attempts) = result.snapshot();
    assert!(password.is_none());
    assert_eq!(attempts, 0);
}

#[test]
fn first_report_wins_and_later_reports_change_nothing() {
    let mut result = CrackResult::new();
    assert!(result.try_report_found("first"));
    assert!(result.is_found());
    assert!(!result.try_report_found("second"));
    assert!(!result.try_report_found("third"));
    let (password, attempts) = result.snapshot();
    assert_eq!(password, Some("first".to_string()));
    assert_eq!(attempts, 0);
}

#[test]
fn attempts_never_decrease() {
    let mut result = CrackResult::new();
    let mut last: usize = 0;
    for _ in 0..100 {
        result.increment_attempts();
        let now = result.get_attempts();
        assert!(now >= last);
        last = now;
    }
    assert_eq!(result.get_attempts(), 100);
}
