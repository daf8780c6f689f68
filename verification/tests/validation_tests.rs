use note::utils::{
    sanitize_text, validate_block_text, validate_max_length, validate_not_empty,
    validate_page_title, validate_uuid_format,
};
use note::AppError;

#[test]
fn test_validate_not_empty() {
    assert!(validate_not_empty("hello", "test").is_ok());
    assert!(validate_not_empty("", "test").is_err());
    assert!(validate_not_empty("   ", "test").is_err());
}

#[test]
fn test_validate_max_length() {
    assert!(validate_max_length("hello", 10, "test").is_ok());
    assert!(validate_max_length("hello world!", 5, "test").is_err());
}

#[test]
fn test_validate_page_title() {
    assert!(validate_page_title("My Page").is_ok());
    assert!(validate_page_title("").is_err());
    assert!(validate_page_title(&"x".repeat(201)).is_err());
}

#[test]
fn test_sanitize_text() {
    let input = "Hello\x00World\nNew Line\tTab";
    let output = sanitize_text(input);
    assert_eq!(output, "HelloWorld\nNew Line\tTab");
}

#[test]
fn not_empty_names_the_missing_field() {
    assert_eq!(
        validate_not_empty(" \t\n", "title"),
        Err(AppError::MissingRequiredField("title".to_string()))
    );
    assert_eq!(validate_not_empty(" x ", "title"), Ok(()));
}

#[test]
fn max_length_counts_bytes_and_reports_the_limit() {
    assert_eq!(validate_max_length("hello", 5, "test"), Ok(()));
    assert_eq!(
        validate_max_length("hello!", 5, "test"),
        Err(AppError::InvalidBlockData(
            "test exceeds maximum length of 5 characters".to_string()
        ))
    );
    // two characters, four bytes
    assert!(validate_max_length("éé", 3, "test").is_err());
    assert!(validate_max_length("éé", 4, "test").is_ok());
    assert_eq!(
        validate_max_length("x", 0, "f"),
        Err(AppError::InvalidBlockData(
            "f exceeds maximum length of 0 characters".to_string()
        ))
    );
}

#[test]
fn page_title_limits() {
    assert!(validate_page_title(&"x".repeat(200)).is_ok());
    assert_eq!(
        validate_page_title("  "),
        Err(AppError::MissingRequiredField("page title".to_string()))
    );
    assert_eq!(
        validate_page_title(&"x".repeat(201)),
        Err(AppError::InvalidBlockData(
            "page title exceeds maximum length of 200 characters".to_string()
        ))
    );
}

#[test]
fn block_text_limits() {
    assert!(validate_block_text("").is_ok());
    assert!(validate_block_text(&"x".repeat(10000)).is_ok());
    assert_eq!(
        validate_block_text(&"x".repeat(10001)),
        Err(AppError::InvalidBlockData(
            "block text exceeds maximum length of 10000 characters".to_string()
        ))
    );
}

#[test]
fn uuid_format_is_checked() {
    assert!(validate_uuid_format("550e8400-e29b-41d4-a716-446655440000", "id").is_ok());
    assert_eq!(
        validate_uuid_format("not-a-uuid", "node id"),
        Err(AppError::InvalidBlockData(
            "Invalid UUID format for node id".to_string()
        ))
    );
}

#[test]
fn sanitize_keeps_printable_text_and_drops_controls() {
    assert_eq!(sanitize_text(""), "");
    assert_eq!(sanitize_text("plain"), "plain");
    assert_eq!(sanitize_text("a\u{7f}b\u{1b}c\r\n"), "abc\n");
    assert_eq!(sanitize_text("\t\n"), "\t\n");
}

#[test]
fn error_messages_carry_heading_and_payload() {
    assert_eq!(
        AppError::MissingRequiredField("title".to_string()).message(),
        "Missing required field: title"
    );
    assert_eq!(
        AppError::NotFound("abc".to_string()).message(),
        "Not found: abc"
    );
}
