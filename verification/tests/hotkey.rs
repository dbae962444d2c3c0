use clip_glimpse::hotkey::{parse_hotkey, Hotkey};

#[test]
fn default_hotkey_parses() {
    assert_eq!(
        parse_hotkey("Ctrl+Shift+V"),
        Some(Hotkey { ctrl: true, shift: true, alt: false, key: 0x56 })
    );
}

#[test]
fn hotkey_ignores_letter_case() {
    assert_eq!(parse_hotkey("ctrl+shift+v"), parse_hotkey("CTRL+SHIFT+V"));
    assert_eq!(
        parse_hotkey("control+ALT+q"),
        Some(Hotkey { ctrl: true, shift: false, alt: true, key: 0x51 })
    );
}

#[test]
fn hotkey_keys_digits_and_function_keys() {
    assert_eq!(parse_hotkey("V"), Some(Hotkey { ctrl: false, shift: false, alt: false, key: 0x56 }));
    assert_eq!(parse_hotkey("Alt+7"), Some(Hotkey { ctrl: false, shift: false, alt: true, key: 0x37 }));
    assert_eq!(parse_hotkey("Shift+F1"), Some(Hotkey { ctrl: false, shift: true, alt: false, key: 0x70 }));
    assert_eq!(parse_hotkey("f12"), Some(Hotkey { ctrl: false, shift: false, alt: false, key: 0x7B }));
    assert_eq!(parse_hotkey("Ctrl+Ctrl+X").map(|h| h.key), Some(0x58));
}

#[test]
fn malformed_hotkeys_are_refused() {
    assert_eq!(parse_hotkey(""), None);
    assert_eq!(parse_hotkey("Ctrl+"), None);
    assert_eq!(parse_hotkey("Ctrl++V"), None);
    assert_eq!(parse_hotkey("Super+V"), None);
    assert_eq!(parse_hotkey("Ctrl+Shift"), None);
    assert_eq!(parse_hotkey("Ctrl+F13"), None);
    assert_eq!(parse_hotkey("Ctrl+F0"), None);
    assert_eq!(parse_hotkey("V+Ctrl"), None);
    assert_eq!(parse_hotkey("Ctrl + V"), None);
}
