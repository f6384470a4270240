//! Tests for view state, detail tabs, display titles and user responses.

use transcript_explorer::app::{get_display_title, DetailTab, InputMode, View};
use transcript_explorer::update::UserResponse;

#[test]
fn test_user_response_variants() {
    let resp = UserResponse::Confirmed;
    assert!(matches!(resp, UserResponse::Confirmed));

    let resp = UserResponse::Declined;
    assert!(matches!(resp, UserResponse::Declined));

    let resp = UserResponse::Retry;
    assert!(matches!(resp, UserResponse::Retry));

    let resp = UserResponse::Dismissed;
    assert!(matches!(resp, UserResponse::Dismissed));
}

#[test]
fn test_detail_tab_next_cycles() {
    assert_eq!(DetailTab::Summary.next(), DetailTab::Transcript);
    assert_eq!(DetailTab::Transcript.next(), DetailTab::Timestamps);
    assert_eq!(DetailTab::Timestamps.next(), DetailTab::Summary);
}

#[test]
fn test_detail_tab_prev_cycles() {
    assert_eq!(DetailTab::Summary.prev(), DetailTab::Timestamps);
    assert_eq!(DetailTab::Transcript.prev(), DetailTab::Summary);
    assert_eq!(DetailTab::Timestamps.prev(), DetailTab::Transcript);
}

#[test]
fn test_detail_tab_labels() {
    assert_eq!(DetailTab::Summary.label(), "Summary");
    assert_eq!(DetailTab::Transcript.label(), "Transcript");
    assert_eq!(DetailTab::Timestamps.label(), "Timestamps");
}

#[test]
fn test_view_and_input_mode_equality() {
    assert_eq!(View::List, View::List);
    assert_ne!(View::List, View::Detail);
    assert_eq!(InputMode::Normal, InputMode::Normal);
    assert_ne!(InputMode::Normal, InputMode::Editing);
}

#[test]
fn test_display_title_plain_first_line() {
    assert_eq!(get_display_title("A video about trains\nmore text"), "A video about trains");
}

#[test]
fn test_display_title_empty_preview() {
    assert_eq!(get_display_title(""), "No summary");
}

#[test]
fn test_display_title_skips_blank_lines() {
    assert_eq!(get_display_title("\n   \n  Real title  \nrest"), "Real title");
}

#[test]
fn test_display_title_skips_generic_lead() {
    let preview = "Okay, here is the abstract you asked for\nThe actual summary line";
    assert_eq!(get_display_title(preview), "The actual summary line");
}

#[test]
fn test_display_title_abstract_heading_without_marker_is_skipped() {
    // The bold-abstract line carries no "**:" marker, so the scan moves on.
    let preview = "**Abstract:** An essay on birds\nSecond line";
    assert_eq!(get_display_title(preview), "Second line");
}

#[test]
fn test_display_title_falls_back_to_first_line() {
    let preview = "okay, here is the abstract\n\n";
    assert_eq!(get_display_title(preview), "okay, here is the abstract");
}

#[test]
fn test_display_title_strips_carriage_returns() {
    assert_eq!(get_display_title("Title line\r\nbody"), "Title line");
}
