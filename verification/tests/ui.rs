use pm64::color::{background, black, green, purple, white, Color};
use pm64::interface::{Hot, TrackListInterface};

#[test]
fn hex_colours() {
    assert_eq!(Color::hex(0x807FFF), Color(0x80, 0x7F, 0xFF, 255));
    assert_eq!(Color::hex(0xFF123456), Color(0x12, 0x34, 0x56, 255));
    assert_eq!(purple(), Color(0x80, 0x7F, 0xFF, 255));
    assert_eq!(background(), Color(0x13, 0x12, 0x17, 255));
    assert_eq!(white().as_rgba_u8_tuple(), (255, 255, 255, 255));
    assert_eq!(black().as_rgba_u8_tuple(), (0, 0, 0, 255));
    assert_eq!(green().as_rgba_u8_tuple(), (0, 255, 0, 255));
}

#[test]
fn hot_update_reports_changes_only() {
    let mut hot = Hot::new();
    assert!(!hot.has_connections());
    assert!(!hot.update(None));
    assert!(!hot.update(Some(false)));
    assert!(hot.update(Some(true)));
    assert!(hot.has_connections());
    assert!(!hot.update(Some(true)));
    assert!(!hot.update(None));
    assert!(hot.has_connections());
    assert!(hot.update(Some(false)));
    assert!(!hot.has_connections());
}

#[test]
fn track_list_interface_starts_idle() {
    let t = TrackListInterface::new();
    assert_eq!(t.editing_index, None);
    assert!(!t.is_edit_voice);
    assert!(!t.is_set_instrument);
}
