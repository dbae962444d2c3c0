use clip_glimpse::protocol::{
    compute_crc32, encode_message, estimate_chunks, Chunk, MessageAssembler, FLAG_COMPRESSED,
    HEADER_SIZE, VERSION,
};

#[test]
fn test_chunk_encode_decode() {
    let original = Chunk::new(42, 100, 0xDEADBEEF, FLAG_COMPRESSED, b"hello world".to_vec());
    let encoded = original.encode();
    let decoded = Chunk::decode(&encoded).unwrap();
    assert_eq!(original.version, decoded.version);
    assert_eq!(original.flags, decoded.flags);
    assert_eq!(original.seq, decoded.seq);
    assert_eq!(original.total, decoded.total);
    assert_eq!(original.crc32, decoded.crc32);
    assert_eq!(original.payload, decoded.payload);
}

#[test]
fn test_invalid_magic() {
    let result = Chunk::decode(b"XX\x02\x00\x00\x01\x00\x02\x00\x00\x00\x00test");
    assert!(result.is_none());
}

#[test]
fn test_encode_small_message() {
    let chunks = encode_message("hello", 100);
    assert_eq!(chunks.len(), 1);
    assert_eq!(chunks[0].flags, FLAG_COMPRESSED);
    assert_eq!(chunks[0].total, 1);
    assert_eq!(chunks[0].seq, 0);
}

#[test]
fn test_encode_multi_chunk() {
    let text = "a".repeat(5000);
    let chunks = encode_message(&text, 10);
    assert!(chunks.len() > 1);
    assert!(chunks.iter().all(|c| c.flags == FLAG_COMPRESSED));
    assert_eq!(chunks[0].total, chunks.len() as u16);
}

#[test]
fn test_empty_message() {
    let chunks = encode_message("", 100);
    assert!(chunks.is_empty());
}

#[test]
fn test_message_assembly() {
    let text = "Hello, ClipGlimpse!";
    let chunks = encode_message(text, 50);
    let mut assembler = MessageAssembler::new();
    let mut result = None;
    for chunk in &chunks {
        if let Some(msg) = assembler.feed(chunk) {
            result = Some(msg);
        }
    }
    assert_eq!(result, Some(text.to_string()));
}

#[test]
fn test_message_assembly_large() {
    let text = "hello ".repeat(200);
    let chunks = encode_message(&text, 100);
    let mut assembler = MessageAssembler::new();
    let mut result = None;
    for chunk in &chunks {
        if let Some(msg) = assembler.feed(chunk) {
            result = Some(msg);
        }
    }
    assert_eq!(result, Some(text));
}

#[test]
fn test_message_assembly_out_of_order() {
    let text = "Hello out of order!";
    let chunks = encode_message(text, 5);
    let total = chunks.len();

    let mut assembler = MessageAssembler::new();
    let mut result = None;
    for i in (0..total).rev() {
        if let Some(msg) = assembler.feed(&chunks[i]) {
            result = Some(msg);
            break;
        }
    }
    assert_eq!(result, Some(text.to_string()));
}

#[test]
fn test_duplicate_during_assembly_ignored() {
    let text = "duplicate test with enough text to span multiple chunks ".repeat(5);
    let chunks = encode_message(&text, 20);
    assert!(chunks.len() >= 2);

    let mut assembler = MessageAssembler::new();
    assembler.feed(&chunks[0]);
    assert!(assembler.is_active());
    assert!(assembler.feed(&chunks[0]).is_none());
}

#[test]
fn test_crc_mismatch_rejected() {
    let text = "crc mismatch test with longer text ".repeat(4);
    let mut chunks = encode_message(&text, 20);
    assert!(chunks.len() >= 2);

    if let Some(c) = chunks.first_mut() {
        if let Some(last) = c.payload.last_mut() {
            *last ^= 0xFF;
        }
    }

    let mut assembler = MessageAssembler::new();
    for chunk in &chunks {
        let _ = assembler.feed(chunk);
    }

    assert!(!assembler.is_active());

    let correct_chunks = encode_message(&text, 20);
    let mut assembler2 = MessageAssembler::new();
    let mut result = None;
    for chunk in &correct_chunks {
        if let Some(msg) = assembler2.feed(chunk) {
            result = Some(msg);
        }
    }
    assert_eq!(result, Some(text));
}

#[test]
fn test_crc32() {
    assert_eq!(compute_crc32(b"hello"), 0x3610A686);
    assert_eq!(compute_crc32(b""), 0);
    assert_eq!(compute_crc32(b"abc"), 0x352441C2);
}

#[test]
fn test_estimate_chunks() {
    assert_eq!(estimate_chunks(0, 100), 0);
    assert_eq!(estimate_chunks(50, 100), 1);
    assert_eq!(estimate_chunks(100, 100), 1);
    assert_eq!(estimate_chunks(101, 100), 2);
    assert_eq!(estimate_chunks(200, 100), 2);
}

#[test]
fn test_decode_too_short() {
    assert!(Chunk::decode(b"CG\x02\x00").is_none());
}

#[test]
fn test_decode_wrong_version() {
    let chunk = Chunk::new(1, 2, 0, FLAG_COMPRESSED, b"test".to_vec());
    let mut data = chunk.encode();
    data[2] = 0xFF;
    assert!(Chunk::decode(&data).is_none());
}

#[test]
fn test_cyclic_consumption() {
    let text = "cyclic test ".repeat(20);
    let chunks = encode_message(&text, 10);
    let total = chunks.len();
    assert!(total >= 2);

    for start in 0..total {
        let mut assembler = MessageAssembler::new();
        let mut result = None;
        for offset in 0..total {
            let idx = (start + offset) % total;
            if let Some(msg) = assembler.feed(&chunks[idx]) {
                result = Some(msg);
                break;
            }
        }
        assert_eq!(result, Some(text.clone()), "Failed for start={}", start);
    }
}

#[test]
fn test_message_change_resets_assembler() {
    let text1 = "first message with enough text for many chunks hooray ".repeat(4);
    let text2 = "second message with enough text for many chunks hooray ".repeat(4);
    let chunks1 = encode_message(&text1, 20);
    let chunks2 = encode_message(&text2, 20);
    assert!(chunks1.len() >= 2);
    assert!(chunks2.len() >= 2);

    let mut assembler = MessageAssembler::new();

    assembler.feed(&chunks1[0]);
    assert!(assembler.is_active());
    assert!(assembler.feed(&chunks1[1]).is_none());

    assert!(assembler.feed(&chunks2[0]).is_none());

    let mut result = None;
    for chunk in &chunks2 {
        if let Some(msg) = assembler.feed(chunk) {
            result = Some(msg);
        }
    }
    assert_eq!(result, Some(text2));
}

#[test]
fn test_uncompressed_assembly() {
    let text = "raw data test";
    let crc32 = compute_crc32(text.as_bytes());
    let chunks = vec![Chunk::new(0, 1, crc32, 0, text.as_bytes().to_vec())];
    let mut assembler = MessageAssembler::new();
    assert_eq!(assembler.feed(&chunks[0]), Some(text.to_string()));
}

#[test]
fn test_single_chunk_message() {
    let text = "single";
    let chunks = encode_message(text, 100);
    assert_eq!(chunks.len(), 1);
    let mut assembler = MessageAssembler::new();
    assert_eq!(assembler.feed(&chunks[0]), Some(text.to_string()));
}

#[test]
fn chunk_wire_layout_is_big_endian() {
    let chunk = Chunk::new(0x0102, 0x0304, 0x0A0B0C0D, 1, vec![0xEE]);
    let bytes = chunk.encode();
    assert_eq!(bytes.len(), HEADER_SIZE + 1);
    assert_eq!(
        bytes,
        vec![0x43, 0x47, VERSION, 1, 0x01, 0x02, 0x03, 0x04, 0x0A, 0x0B, 0x0C, 0x0D, 0xEE]
    );
}

#[test]
fn encode_then_decode_bytes_round_trip() {
    let data: Vec<u8> = vec![0x43, 0x47, 0x02, 0x07, 0xFF, 0x00, 0x00, 0x09, 1, 2, 3, 4, 9, 8];
    let chunk = Chunk::decode(&data).unwrap();
    assert_eq!(chunk.encode(), data);
    let header_only = &data[..HEADER_SIZE];
    assert_eq!(Chunk::decode(header_only).unwrap().payload, Vec::<u8>::new());
}

#[test]
fn lz4_payload_carries_size_prefix() {
    let chunks = encode_message("hello", 100);
    let payload = &chunks[0].payload;
    // the compressed form starts with the uncompressed length, little endian
    assert_eq!(&payload[..4], &[5, 0, 0, 0]);
    assert_ne!(payload.as_slice(), b"hello");
    assert_eq!(chunks[0].crc32, compute_crc32(b"hello"));
}

#[test]
fn chunks_cover_the_compressed_message() {
    let text = "lorem ipsum dolor sit amet ".repeat(30);
    let chunks = encode_message(&text, 7);
    let n = chunks.len();
    for (i, c) in chunks.iter().enumerate() {
        assert_eq!(c.seq as usize, i);
        assert_eq!(c.total as usize, n);
        if i + 1 < n {
            assert_eq!(c.payload.len(), 7);
        } else {
            assert!(c.payload.len() >= 1 && c.payload.len() <= 7);
        }
    }
}

#[test]
fn invalid_utf8_is_decoded_lossily() {
    let raw = vec![b'o', b'k', 0xFF];
    let expected = "ok\u{FFFD}";
    let crc32 = compute_crc32(expected.as_bytes());
    let chunk = Chunk::new(0, 1, crc32, 0, raw);
    let mut assembler = MessageAssembler::new();
    assert_eq!(assembler.feed(&chunk), Some(expected.to_string()));
}

#[test]
fn corrupt_compressed_data_resets() {
    let chunk = Chunk::new(0, 1, 0, FLAG_COMPRESSED, vec![1, 2]);
    let mut assembler = MessageAssembler::new();
    assert_eq!(assembler.feed(&chunk), None);
    assert!(!assembler.is_active());
    assert_eq!(assembler.total_chunks(), 0);
}

#[test]
fn out_of_range_seq_is_ignored() {
    let chunk = Chunk::new(5, 2, 7, 0, vec![1]);
    let mut assembler = MessageAssembler::new();
    assert_eq!(assembler.feed(&chunk), None);
    assert!(assembler.is_active());
    assert_eq!(assembler.total_chunks(), 2);
    assert_eq!(assembler.filled_count(), 0);
}

#[test]
fn reset_returns_to_idle() {
    let chunks = encode_message(&"reset me please ".repeat(10), 8);
    let mut assembler = MessageAssembler::new();
    assembler.feed(&chunks[0]);
    assert_eq!(assembler.filled_count(), 1);
    assembler.reset();
    assert!(!assembler.is_active());
    assert_eq!(assembler.filled_count(), 0);
    assert_eq!(assembler.total_chunks(), 0);
}

#[test]
fn unicode_text_round_trips() {
    let text = "二维码 transfer ✓ ".repeat(15);
    let chunks = encode_message(&text, 16);
    let mut assembler = MessageAssembler::new();
    let mut result = None;
    for i in (0..chunks.len()).step_by(2).chain((1..chunks.len()).step_by(2)) {
        if let Some(msg) = assembler.feed(&chunks[i]) {
            result = Some(msg);
        }
    }
    assert_eq!(result, Some(text));
}

#[test]
fn crc32_check_value_and_affinity() {
    assert_eq!(compute_crc32(b"123456789"), 0xCBF43926);
    let a = b"clip glimpse";
    let b = b"QR chunk log";
    let c = b"0123456789ab";
    let x: Vec<u8> = (0..a.len()).map(|i| a[i] ^ b[i] ^ c[i]).collect();
    assert_eq!(compute_crc32(&x), compute_crc32(a) ^ compute_crc32(b) ^ compute_crc32(c));
}

#[test]
fn reassembly_with_repeats_completes_at_first_full_cover() {
    let text = "repeated frames are normal while scanning ".repeat(8);
    let chunks = encode_message(&text, 16);
    let n = chunks.len();
    assert!(n >= 4);
    // Start in the middle, read every frame two or three times.
    let mut order: Vec<usize> = Vec::new();
    for k in 0..n {
        let i = (n / 2 + k) % n;
        order.push(i);
        order.push(i);
        if k % 2 == 0 {
            order.push(i);
        }
    }
    let mut a = MessageAssembler::new();
    let mut seen = std::collections::HashSet::new();
    for (step, &i) in order.iter().enumerate() {
        let first_time = seen.insert(i);
        let r = a.feed(&chunks[i]);
        if seen.len() == n && first_time {
            assert_eq!(r, Some(text.clone()), "step {}", step);
            assert!(!a.is_active());
            return;
        }
        assert_eq!(r, None);
        assert!(a.is_active());
        assert_eq!(a.filled_count() as usize, seen.len());
        assert_eq!(a.total_chunks() as usize, n);
    }
    panic!("message never completed");
}

#[test]
fn chunk_index_past_the_count_is_ignored() {
    let chunks = encode_message(&"index out of range ".repeat(6), 16);
    assert!(chunks.len() >= 2);
    let mut a = MessageAssembler::new();
    assert_eq!(a.feed(&chunks[0]), None);
    let mut stray = chunks[1].clone();
    stray.seq = chunks[1].total;
    assert_eq!(a.feed(&stray), None);
    assert!(a.is_active());
    assert_eq!(a.filled_count(), 1);
    assert_eq!(a.total_chunks(), chunks[0].total);
}
