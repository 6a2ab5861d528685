use j2calc::firmware::{after_scan, display_action, status_text, AfterScan, DisplayAction, DisplayEvent};

#[test]
fn idle_keypad_waits_for_a_key() {
    assert_eq!(after_scan(0), AfterScan::LedOffWaitForKey);
    assert_eq!(after_scan(1), AfterScan::LedOnScanAgain);
    assert_eq!(after_scan(1 << 48), AfterScan::LedOnScanAgain);
}

#[test]
fn display_wakes_to_draw_or_refresh() {
    assert_eq!(display_action(DisplayEvent::RedrawRequested), DisplayAction::DrawFramebuffer);
    assert_eq!(display_action(DisplayEvent::RefreshDue), DisplayAction::UpdateVcom);
}

#[test]
fn status_text_shows_the_mask_in_49_binary_digits() {
    let expected: Vec<char> = format!("Buttons {:049b}", 0u64).chars().collect();
    assert_eq!(status_text(0), expected);
    let mask = (1u64 << 42) | 0x45;
    let expected: Vec<char> = format!("Buttons {:049b}", mask).chars().collect();
    assert_eq!(status_text(mask), expected);
    assert_eq!(status_text(mask).len(), 57);
    let text: String = status_text(5).into_iter().collect();
    assert!(text.ends_with("00101"));
    assert!(text.starts_with("Buttons 0000"));
}

#[test]
fn status_text_grows_for_wide_masks() {
    let expected: Vec<char> = format!("Buttons {:049b}", u64::MAX).chars().collect();
    assert_eq!(status_text(u64::MAX), expected);
    assert_eq!(status_text(u64::MAX).len(), 8 + 64);
}
