use clip_glimpse::read::config::updated_config_text;
use clip_glimpse::read::scanner::{hotkey_poll_step, ScanState};
use clip_glimpse::read::{Config, ScreenRegion, WindowPosition};

fn int_at(text: &str, table: &str, key: &str) -> Option<i64> {
    let v: toml::Value = toml::from_str(text).ok()?;
    v.get(table)?.get(key)?.as_integer()
}

#[test]
fn new_file_gets_region_and_positions() {
    let mut c = Config::default();
    c.region = Some(ScreenRegion { x: -5, y: 10, width: 300, height: 200 });
    c.read_window_pos = Some(WindowPosition { x: 7, y: 8 });
    let text = updated_config_text(None, &c).unwrap();
    assert_eq!(int_at(&text, "region", "x"), Some(-5));
    assert_eq!(int_at(&text, "region", "y"), Some(10));
    assert_eq!(int_at(&text, "region", "width"), Some(300));
    assert_eq!(int_at(&text, "region", "height"), Some(200));
    assert_eq!(int_at(&text, "read_window_pos", "x"), Some(7));
    assert_eq!(int_at(&text, "read_window_pos", "y"), Some(8));
    assert_eq!(int_at(&text, "generate_window_pos", "x"), None);
}

#[test]
fn existing_settings_and_comments_are_kept() {
    let existing = "# my settings\nscan_interval_ms = 300\n\n[generate_window_pos]\nx = 1\ny = 2\n";
    let mut c = Config::default();
    c.region = Some(ScreenRegion { x: 0, y: 0, width: 10, height: 20 });
    let text = updated_config_text(Some(existing), &c).unwrap();
    assert!(text.contains("# my settings"));
    assert!(text.contains("scan_interval_ms = 300"));
    assert_eq!(int_at(&text, "generate_window_pos", "x"), Some(1));
    assert_eq!(int_at(&text, "generate_window_pos", "y"), Some(2));
    assert_eq!(int_at(&text, "region", "height"), Some(20));
}

#[test]
fn no_region_removes_the_table() {
    let existing = "scan_interval_ms = 300\n\n[region]\nx = 1\ny = 2\nwidth = 3\nheight = 4\n";
    let c = Config::default();
    let text = updated_config_text(Some(existing), &c).unwrap();
    assert!(!text.contains("[region]"));
    assert_eq!(int_at(&text, "region", "x"), None);
    assert!(text.contains("scan_interval_ms = 300"));
}

#[test]
fn window_position_overwrites_its_table() {
    let existing = "[read_window_pos]\nx = 1\ny = 2\n";
    let mut c = Config::default();
    c.read_window_pos = Some(WindowPosition { x: 30, y: 40 });
    let text = updated_config_text(Some(existing), &c).unwrap();
    assert_eq!(int_at(&text, "read_window_pos", "x"), Some(30));
    assert_eq!(int_at(&text, "read_window_pos", "y"), Some(40));
}

#[test]
fn unparsable_or_misshapen_files_give_none() {
    let c = Config::default();
    assert_eq!(updated_config_text(Some("this is = = not toml"), &c), None);
    let mut c = Config::default();
    c.region = Some(ScreenRegion { x: 0, y: 0, width: 1, height: 1 });
    assert_eq!(updated_config_text(Some("region = 5\n"), &c), None);
}

#[test]
fn hotkey_toggles_on_the_rising_edge_only() {
    assert_eq!(hotkey_poll_step(ScanState::Idle, false, true), (ScanState::Scanning, true));
    assert_eq!(hotkey_poll_step(ScanState::Scanning, true, true), (ScanState::Scanning, true));
    assert_eq!(hotkey_poll_step(ScanState::Scanning, true, false), (ScanState::Scanning, false));
    assert_eq!(hotkey_poll_step(ScanState::Scanning, false, true), (ScanState::Idle, true));
    assert_eq!(hotkey_poll_step(ScanState::Idle, false, false), (ScanState::Idle, false));
}
