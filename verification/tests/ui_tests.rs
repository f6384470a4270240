//! Tests for the password overlay and the list-cell truncation helper.

use transcript_explorer::ui::{KeyPress, PasswordInputOverlay, PasswordInputResult, truncate_str};

#[test]
fn test_password_input_overlay_creation() {
    let overlay = PasswordInputOverlay::new("Enter password:".to_string());
    assert!(overlay.is_active());
    assert_eq!(overlay.prompt, "Enter password:");
    assert!(overlay.error_message.is_none());
}

#[test]
fn test_password_input_overlay_char_input() {
    let mut overlay = PasswordInputOverlay::new("Enter password:".to_string());

    let result = overlay.handle_key(KeyPress::Char('a'));

    assert!(result.is_none());
    assert_eq!(overlay.password, "a");
}

#[test]
fn test_password_input_overlay_backspace() {
    let mut overlay = PasswordInputOverlay::new("Enter password:".to_string());

    overlay.password = "abc".to_string();

    let result = overlay.handle_key(KeyPress::Backspace);

    assert!(result.is_none());
    assert_eq!(overlay.password, "ab");
}

#[test]
fn test_password_input_overlay_enter_with_password() {
    let mut overlay = PasswordInputOverlay::new("Enter password:".to_string());
    overlay.password = "mypassword".to_string();

    let result = overlay.handle_key(KeyPress::Enter);

    assert!(result.is_some());
    match result.unwrap() {
        PasswordInputResult::Submit(pwd) => assert_eq!(pwd, "mypassword"),
        _ => panic!("Expected Submit result"),
    }
}

#[test]
fn test_password_input_overlay_enter_without_password() {
    let mut overlay = PasswordInputOverlay::new("Enter password:".to_string());

    let result = overlay.handle_key(KeyPress::Enter);

    assert!(result.is_none());
}

#[test]
fn test_password_input_overlay_escape() {
    let mut overlay = PasswordInputOverlay::new("Enter password:".to_string());
    overlay.password = "mypassword".to_string();

    let result = overlay.handle_key(KeyPress::Escape);

    assert!(result.is_some());
    match result.unwrap() {
        PasswordInputResult::Cancel => {}
        _ => panic!("Expected Cancel result"),
    }
}

#[test]
fn test_password_input_overlay_set_error() {
    let mut overlay = PasswordInputOverlay::new("Enter password:".to_string());
    overlay.password = "wrongpassword".to_string();

    overlay.set_error("Incorrect password".to_string());

    assert_eq!(overlay.error_message, Some("Incorrect password".to_string()));
    assert_eq!(overlay.password, "");
}

#[test]
fn test_password_input_overlay_deactivate() {
    let mut overlay = PasswordInputOverlay::new("Enter password:".to_string());
    assert!(overlay.is_active());

    overlay.deactivate();
    assert!(!overlay.is_active());
}

#[test]
fn test_password_input_overlay_ignores_other_keys() {
    let mut overlay = PasswordInputOverlay::new("Enter password:".to_string());
    overlay.password = "abc".to_string();

    let result = overlay.handle_key(KeyPress::Other);

    assert!(result.is_none());
    assert_eq!(overlay.password, "abc");
}

#[test]
fn test_truncate_str_short_strings_kept() {
    assert_eq!(truncate_str("hello", 10), "hello");
    assert_eq!(truncate_str("hello", 5), "hello");
    assert_eq!(truncate_str("", 3), "");
}

#[test]
fn test_truncate_str_long_strings_get_ellipsis() {
    assert_eq!(truncate_str("hello world", 5), "hell…");
    assert_eq!(truncate_str("hello", 1), "…");
    assert_eq!(truncate_str("ab", 0), "…");
}
