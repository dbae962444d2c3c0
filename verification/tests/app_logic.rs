use clip_glimpse::generate::{
    initial_selection, interval_index_for, interval_ms, next_frame, plan_chunks, preset,
    preset_index_for, ChunkPlan,
};
use clip_glimpse::protocol::{encode_message, MessageAssembler};
use clip_glimpse::read::scanner::{expire_stale_message, process_frame, ScanConfig, ScanState, ScanStats};
use clip_glimpse::read::{Config, ScreenRegion};
use clip_glimpse::screen::CaptureRegion;

#[test]
fn scan_state_toggles() {
    assert_eq!(ScanState::Idle.toggled(), ScanState::Scanning);
    assert_eq!(ScanState::Scanning.toggled(), ScanState::Idle);
}

#[test]
fn scan_config_defaults() {
    let c = ScanConfig::new(150);
    assert_eq!(c.interval_ms, 150);
    assert_eq!(c.timeout_secs, 30);
    let d = ScanConfig::default();
    assert_eq!(d.interval_ms, 200);
}

#[test]
fn config_defaults() {
    let c = Config::default();
    assert!(c.region.is_none());
    assert_eq!(c.scan_interval_ms, 200);
    assert_eq!(c.hotkey, "Ctrl+Shift+V");
    assert_eq!(c.generate_preset_index, 1);
    assert_eq!(c.generate_interval_ms, 500);
    assert!(!c.color_mode);
}

#[test]
fn region_conversions_round_trip() {
    let r = CaptureRegion::new(-5, 7, 100, 50);
    let s: ScreenRegion = r.into();
    let back: CaptureRegion = s.into();
    assert_eq!((back.x, back.y, back.width, back.height), (-5, 7, 100, 50));
}

#[test]
fn capture_region_contains() {
    let r = CaptureRegion::new(10, 20, 5, 5);
    assert!(r.contains(10, 20));
    assert!(r.contains(14, 24));
    assert!(!r.contains(15, 20));
    assert!(!r.contains(9, 20));
    assert!(!r.contains(10, 25));
}

#[test]
fn process_frame_counts_and_completes() {
    let chunks = encode_message("scan me", 100);
    let frame = chunks[0].encode();
    let mut assembler = MessageAssembler::new();
    let mut stats = ScanStats::default();
    let mut state = ScanState::Scanning;
    assert_eq!(process_frame(&mut assembler, &mut stats, &mut state, b"not a chunk", 0, 30_000), None);
    assert_eq!(stats.chunks_received, 0);
    assert_eq!(state, ScanState::Scanning);
    let done = process_frame(&mut assembler, &mut stats, &mut state, &frame, 0, 30_000);
    assert_eq!(state, ScanState::Idle);
    assert_eq!(done, Some("scan me".to_string()));
    assert_eq!(stats.chunks_received, 1);
    assert_eq!(stats.messages_completed, 1);
    assert!(!stats.current_message_active);
}

#[test]
fn process_frame_drops_stale_message() {
    let chunks = encode_message(&"stale message text ".repeat(10), 8);
    assert!(chunks.len() >= 3);
    let mut assembler = MessageAssembler::new();
    let mut stats = ScanStats::default();
    let mut state = ScanState::Scanning;
    process_frame(&mut assembler, &mut stats, &mut state, &chunks[0].encode(), 0, 1000);
    process_frame(&mut assembler, &mut stats, &mut state, &chunks[1].encode(), 10, 1000);
    assert_eq!(stats.current_received_data_chunks, 2);
    process_frame(&mut assembler, &mut stats, &mut state, &chunks[2].encode(), 5000, 1000);
    assert_eq!(state, ScanState::Scanning);
    assert_eq!(stats.current_received_data_chunks, 1);
    assert_eq!(stats.current_total_chunks as usize, chunks.len());
    assert!(stats.current_message_active);
}

#[test]
fn presets_and_intervals() {
    assert_eq!(preset(1).version, 25);
    assert_eq!(preset(1).payload_size(), 767);
    assert_eq!(preset(3).payload_size(), 1583);
    assert_eq!(interval_ms(2), 500);
    assert_eq!(interval_index_for(500), 2);
    assert_eq!(interval_index_for(250), 0);
    assert_eq!(interval_index_for(260), 1);
    assert_eq!(interval_index_for(5000), 4);
    assert_eq!(preset_index_for(9), 3);
    assert_eq!(preset_index_for(0), 0);
    let (p, i) = initial_selection(&Config::default());
    assert_eq!((p, i), (1, 2));
}

/// Letters from a fixed linear congruential sequence: text that LZ4 cannot
/// shrink much.
fn scrambled_letters(n: usize) -> String {
    let alphabet = b"abcdefghijklmnopqrstuvwxyzABCDEFGHIJKLMNOPQRSTUVWXYZ0123456789";
    let mut x: u64 = 12345;
    let mut out = String::with_capacity(n);
    for _ in 0..n {
        x = x.wrapping_mul(6364136223846793005).wrapping_add(1442695040888963407);
        out.push(alphabet[((x >> 33) % alphabet.len() as u64) as usize] as char);
    }
    out
}

#[test]
fn plans_for_texts() {
    assert!(matches!(plan_chunks("", 1), ChunkPlan::Empty));
    match plan_chunks("some text", 1) {
        ChunkPlan::Chunks(cs) => assert_eq!(cs.len(), 1),
        _ => panic!("expected chunks"),
    }
    let noisy = scrambled_letters(60_000);
    match plan_chunks(&noisy, 0) {
        ChunkPlan::TooLong(n) => {
            assert!(n > 100);
            assert_eq!(n, encode_message(&noisy, 427 - 12).len());
        }
        _ => panic!("expected too long"),
    }
}

#[test]
fn plan_decides_on_the_compressed_size() {
    // Over 100 chunks' worth of raw bytes, but it compresses to a few.
    let long = "x".repeat(427 * 101);
    match plan_chunks(&long, 0) {
        ChunkPlan::Chunks(cs) => {
            assert!(!cs.is_empty() && cs.len() <= 100);
            let expected = encode_message(&long, 427 - 12);
            assert_eq!(cs.len(), expected.len());
            for (a, b) in cs.iter().zip(expected.iter()) {
                assert_eq!(a.encode(), b.encode());
            }
        }
        _ => panic!("expected chunks"),
    }
}

#[test]
fn frames_cycle() {
    assert_eq!(next_frame(0, 3, 0), (1, 0));
    assert_eq!(next_frame(2, 3, 4), (0, 5));
    assert_eq!(next_frame(0, 1, 0), (0, 1));
}

#[test]
fn stale_message_expires_without_a_new_chunk() {
    let chunks = encode_message(&"stale message text ".repeat(10), 8);
    assert!(chunks.len() >= 3);
    let mut assembler = MessageAssembler::new();
    let mut stats = ScanStats::default();
    let mut state = ScanState::Scanning;
    process_frame(&mut assembler, &mut stats, &mut state, &chunks[0].encode(), 0, 30_000);
    assert!(stats.current_message_active);
    // A frame within the timeout keeps the message.
    expire_stale_message(&mut assembler, &mut stats, 29_999, 30_000);
    assert!(assembler.is_active());
    assert!(stats.current_message_active);
    assert_eq!(stats.current_received_data_chunks, 1);
    // Past the timeout the message is dropped, with no chunk needed.
    expire_stale_message(&mut assembler, &mut stats, 30_001, 30_000);
    assert!(!assembler.is_active());
    assert!(!stats.current_message_active);
    assert_eq!(stats.current_total_chunks, 0);
    assert_eq!(stats.current_received_data_chunks, 0);
    assert_eq!(stats.chunks_received, 1);
    assert_eq!(state, ScanState::Scanning);
}
