use clip_glimpse::qr_gen::{generate_color_qr, generate_qr, EcLevel, QrGenParams};

#[test]
fn test_generate_qr_default() {
    let params = QrGenParams::default();
    let img = generate_qr(b"test data", &params);
    assert!(img.is_some());
    let img = img.unwrap();
    assert!(img.width() > 0);
    assert!(img.height() > 0);
}

#[test]
fn test_generate_qr_different_params() {
    let params = QrGenParams {
        version: 20,
        ec_level: EcLevel::Q,
        module_size_px: 4,
    };
    let img = generate_qr(b"hello qr", &params);
    assert!(img.is_some());
}

#[test]
fn test_generate_color_qr_single() {
    let params = QrGenParams::default();
    let img = generate_color_qr(&[b"chunk 1 data".to_vec()], &params);
    assert!(img.is_some());
}

#[test]
fn test_generate_color_qr_three() {
    let params = QrGenParams::default();
    let img = generate_color_qr(
        &[b"red channel".to_vec(), b"green channel".to_vec(), b"blue channel".to_vec()],
        &params,
    );
    assert!(img.is_some());
}

#[test]
fn test_generate_color_qr_empty() {
    let params = QrGenParams::default();
    assert!(generate_color_qr(&[], &params).is_none());
}

#[test]
fn test_color_qr_same_size_as_bw() {
    let params = QrGenParams::default();
    let bw = generate_qr(b"test", &params).unwrap();
    let color = generate_color_qr(&[b"test".to_vec()], &params).unwrap();
    assert_eq!(bw.width(), color.width());
    assert_eq!(bw.height(), color.height());
}

fn pixel(raw: &[u8], side: u32, x: u32, y: u32) -> [u8; 3] {
    let i = ((y * side + x) * 3) as usize;
    [raw[i], raw[i + 1], raw[i + 2]]
}

#[test]
fn qr_image_layout() {
    let params = QrGenParams { version: 1, ec_level: EcLevel::L, module_size_px: 2 };
    let img = generate_qr(b"x", &params).unwrap();
    // 21 modules plus a one-module border on each side, 2 px per module
    assert_eq!(img.width(), 46);
    assert_eq!(img.height(), 46);
    let raw = img.into_raw();
    assert_eq!(raw.len(), 46 * 46 * 3);
    // border is white
    assert_eq!(pixel(&raw, 46, 0, 0), [255, 255, 255]);
    assert_eq!(pixel(&raw, 46, 45, 45), [255, 255, 255]);
    // the top-left finder pattern starts with a dark module
    assert_eq!(pixel(&raw, 46, 2, 2), [0, 0, 0]);
    assert_eq!(pixel(&raw, 46, 3, 3), [0, 0, 0]);
    // its inner ring is light
    assert_eq!(pixel(&raw, 46, 4, 4), [255, 255, 255]);
}

#[test]
fn qr_too_much_data_fails() {
    let params = QrGenParams { version: 1, ec_level: EcLevel::H, module_size_px: 1 };
    assert!(generate_qr(&[7u8; 200], &params).is_none());
    let bad_version = QrGenParams { version: 41, ec_level: EcLevel::L, module_size_px: 1 };
    assert!(generate_qr(b"x", &bad_version).is_none());
}

#[test]
fn color_qr_missing_channels_stay_white() {
    let params = QrGenParams { version: 1, ec_level: EcLevel::L, module_size_px: 1 };
    let img = generate_color_qr(&[b"r".to_vec()], &params).unwrap();
    let raw = img.into_raw();
    // finder module at (1, 1): red channel dark, green and blue white
    assert_eq!(pixel(&raw, 23, 1, 1), [0, 255, 255]);
}
