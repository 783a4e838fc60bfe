use moodjourney::context::get_main_content_from_full_content_rs;
use moodjourney::dates::is_valid_date;

#[test]
fn test_main_content_plain_text_is_trimmed() {
    let r = get_main_content_from_full_content_rs("  A quiet day at home. \n");
    assert_eq!(r, "A quiet day at home.");
}

#[test]
fn test_main_content_drops_suggestion_block() {
    let full = "Went hiking today.\n\n\u{1F4A1} Suggestion:\n- Plan another hike soon.";
    let r = get_main_content_from_full_content_rs(full);
    assert_eq!(r, "Went hiking today.");
}

#[test]
fn test_main_content_rewrites_emotion_marker() {
    let full = "Busy day.\n\n\u{1F9E0} Emotion: joy";
    let r = get_main_content_from_full_content_rs(full);
    assert_eq!(r, "Busy day.\n\nEmotion: joy");
}

#[test]
fn test_main_content_handles_both_markers() {
    let full =
        "Long entry text.\n\n\u{1F9E0} Emotion: sadness\n\n\u{1F4A1} Suggestion:\n- Take a walk.";
    let r = get_main_content_from_full_content_rs(full);
    assert_eq!(r, "Long entry text.\n\nEmotion: sadness");
}

#[test]
fn test_main_content_empty_input() {
    assert_eq!(get_main_content_from_full_content_rs(""), "");
    assert_eq!(get_main_content_from_full_content_rs(" \n\t\r "), "");
}

#[test]
fn test_valid_date_calendar_rules() {
    assert!(is_valid_date("2025-04-20"));
    assert!(is_valid_date("2024-02-29"), "2024 is a leap year");
    assert!(is_valid_date("2000-02-29"), "2000 is divisible by 400");
    assert!(!is_valid_date("1900-02-29"), "1900 is not a leap year");
    assert!(!is_valid_date("2025-02-29"));
    assert!(!is_valid_date("2025-13-40"));
    assert!(!is_valid_date("2025-00-10"));
    assert!(!is_valid_date("2025-04-31"));
    assert!(is_valid_date("2025-12-31"));
    assert!(!is_valid_date("2025-1-05"), "months are zero-padded");
    assert!(!is_valid_date("20250105"));
    assert!(!is_valid_date("abcd-ef-gh"));
    assert!(!is_valid_date(""));
}

#[test]
fn test_main_content_trims_unicode_whitespace() {
    let r = get_main_content_from_full_content_rs("\u{00A0}\u{2003}A spacious day.\u{000B}\u{3000}");
    assert_eq!(r, "A spacious day.");
}
