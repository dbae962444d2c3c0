use clip_glimpse::history::{History, HistoryEntry};

#[test]
fn test_add_and_retrieve() {
    let mut history = History::new();
    history.add("test message".to_string());
    assert_eq!(history.len(), 1);
    assert_eq!(history.get(0).unwrap().text, "test message");
}

#[test]
fn test_max_entries() {
    let mut history = History::with_capacity(3);
    for i in 0..5 {
        history.add(format!("msg {}", i));
    }
    assert_eq!(history.len(), 3);
    assert_eq!(history.get(0).unwrap().text, "msg 4");
    assert_eq!(history.get(2).unwrap().text, "msg 2");
}

#[test]
fn test_clear() {
    let mut history = History::new();
    history.add("hello".to_string());
    history.clear();
    assert!(history.is_empty());
}

#[test]
fn test_preview() {
    let entry = HistoryEntry::new("a".repeat(100));
    assert_eq!(entry.preview(10).len(), 13);
    assert_eq!(entry.preview(200).len(), 100);
}

#[test]
fn test_remove() {
    let mut history = History::with_capacity(5);
    history.add("first".to_string());
    history.add("second".to_string());
    history.add("third".to_string());
    assert_eq!(history.len(), 3);
    history.remove(1);
    assert_eq!(history.len(), 2);
    assert_eq!(history.get(1).unwrap().text, "first");
}

#[test]
fn test_get_out_of_bounds() {
    let history = History::new();
    assert!(history.get(0).is_none());
    assert!(history.get(100).is_none());
}

#[test]
fn history_never_exceeds_capacity() {
    let mut history = History::with_capacity(2);
    for i in 0..10 {
        history.add(format!("m{}", i));
        assert!(history.len() <= 2);
    }
    assert_eq!(history.entries()[0].text, "m9");
    assert_eq!(history.entries()[1].text, "m8");
}

#[test]
fn history_zero_capacity_keeps_nothing() {
    let mut history = History::with_capacity(0);
    history.add("x".to_string());
    assert!(history.is_empty());
}

#[test]
fn history_remove_out_of_range_is_noop() {
    let mut history = History::default();
    history.add("a".to_string());
    history.remove(5);
    assert_eq!(history.len(), 1);
}

#[test]
fn history_timestamp_has_clock_shape() {
    let entry = HistoryEntry::new("t".to_string());
    assert_eq!(entry.timestamp.chars().count(), 8);
    assert_eq!(entry.timestamp.as_bytes()[2], b':');
    assert_eq!(entry.timestamp.as_bytes()[5], b':');
    for (i, b) in entry.timestamp.bytes().enumerate() {
        if i != 2 && i != 5 {
            assert!(b.is_ascii_digit());
        }
    }
}

#[test]
fn preview_exact_and_multibyte() {
    let entry = HistoryEntry::new("héllo".to_string());
    assert_eq!(entry.preview(6), "héllo");
    assert_eq!(entry.preview(3), "hé...");
    assert_eq!(entry.preview(0), "...");
}

#[test]
fn preview_cuts_at_a_character_boundary() {
    let entry = HistoryEntry::new("héllo".to_string());
    assert_eq!(entry.preview(2), "h...");
    let cjk = HistoryEntry::new("中".repeat(30));
    assert_eq!(cjk.text.len(), 90);
    assert_eq!(cjk.preview(80), format!("{}...", "中".repeat(26)));
    assert_eq!(cjk.preview(81), format!("{}...", "中".repeat(27)));
    assert_eq!(cjk.preview(90), "中".repeat(30));
}

#[test]
fn history_clone_keeps_entries_and_bound() {
    let mut h = History::with_capacity(2);
    h.add("a".to_string());
    h.add("b".to_string());
    let c = h.clone();
    assert_eq!(c.len(), 2);
    assert_eq!(c.get(0).unwrap().text, "b");
    let mut c = c;
    c.add("c".to_string());
    assert_eq!(c.len(), 2);
}
