use stackwatch::error::Error;

#[test]
fn test_error_display() {
    let error = Error::window_not_found("main");
    assert_eq!(error.message(), "Window not found: main");
}

#[test]
fn test_error_window_not_found_kind() {
    let error = Error::window_not_found("floating");
    assert!(!error.is_not_found());
    assert!(!error.is_storage());
    assert_eq!(error.message(), "Window not found: floating");
}

#[test]
fn test_error_not_found_message() {
    let error = Error::not_found(999);
    assert!(error.is_not_found());
    assert!(!error.is_storage());
    assert_eq!(error.message(), "Task not found");
}

#[test]
fn test_error_storage_message() {
    let error = Error::storage("disk unavailable".to_string());
    assert!(error.is_storage());
    assert!(!error.is_not_found());
    assert_eq!(error.message(), "Storage error: disk unavailable");
}
