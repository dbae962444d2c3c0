use clip_glimpse::qr_gen::{self, QrGenParams};
use clip_glimpse::qr_read::{decode_qr, extract_channel_from_bgra, stretch_contrast, Channel};

fn rgb_to_gray(rgb: &[u8]) -> Vec<u8> {
    rgb.chunks(3)
        .map(|p| {
            let r = p[0] as f32;
            let g = p[1] as f32;
            let b = p[2] as f32;
            (0.299 * r + 0.587 * g + 0.114 * b) as u8
        })
        .collect()
}

#[test]
fn test_roundtrip() {
    let params = QrGenParams::default();
    let img = qr_gen::generate_qr(b"ClipGlimpse roundtrip test", &params).unwrap();

    let gray = rgb_to_gray(img.as_raw());
    let width = img.width();
    let height = img.height();

    let result = decode_qr(&gray, width, height);
    assert!(result.is_ok());
    assert_eq!(result.unwrap(), b"ClipGlimpse roundtrip test");
}

#[test]
fn test_extract_channel() {
    let bgra = vec![
        255, 0, 0, 255,
        0, 255, 0, 255,
        0, 0, 255, 255,
    ];
    let r = extract_channel_from_bgra(&bgra, Channel::R);
    let g = extract_channel_from_bgra(&bgra, Channel::G);
    let b = extract_channel_from_bgra(&bgra, Channel::B);
    assert_eq!(r, vec![0, 0, 255]);
    assert_eq!(g, vec![0, 255, 0]);
    assert_eq!(b, vec![255, 0, 0]);
}

fn rgb_to_bgra(rgb: &[u8]) -> Vec<u8> {
    let mut bgra = Vec::with_capacity(rgb.len() / 3 * 4);
    for pixel in rgb.chunks(3) {
        bgra.push(pixel[2]);
        bgra.push(pixel[1]);
        bgra.push(pixel[0]);
        bgra.push(255);
    }
    bgra
}

#[test]
fn test_color_qr_roundtrip() {
    let params = QrGenParams::default();
    let groups = vec![
        b"red data".to_vec(),
        b"green data".to_vec(),
        b"blue data".to_vec(),
    ];
    let img = qr_gen::generate_color_qr(&groups, &params).unwrap();
    let width = img.width();
    let height = img.height();

    let bgra = rgb_to_bgra(&img.into_raw());

    let r_src = extract_channel_from_bgra(&bgra, Channel::R);
    let g_src = extract_channel_from_bgra(&bgra, Channel::G);
    let b_src = extract_channel_from_bgra(&bgra, Channel::B);

    let r_result = decode_qr(&r_src, width, height);
    let g_result = decode_qr(&g_src, width, height);
    let b_result = decode_qr(&b_src, width, height);

    assert!(r_result.is_ok());
    assert!(g_result.is_ok());
    assert!(b_result.is_ok());
    assert_eq!(r_result.unwrap(), b"red data");
    assert_eq!(g_result.unwrap(), b"green data");
    assert_eq!(b_result.unwrap(), b"blue data");
}

#[test]
fn test_stretch_contrast_noop() {
    let data = vec![0, 128, 255];
    let result = stretch_contrast(&data);
    assert_eq!(result, vec![0, 128, 255]);
}

#[test]
fn test_stretch_contrast_shifted() {
    let data = vec![30, 100, 200];
    let result = stretch_contrast(&data);
    assert_eq!(result[0], 0);
    assert_eq!(result[2], 255);
    assert!(result[1] > 0 && result[1] < 255);
}

#[test]
fn test_stretch_contrast_flat() {
    let data = vec![128, 128, 128];
    let result = stretch_contrast(&data);
    assert_eq!(result, vec![128, 128, 128]);
}

#[test]
fn test_color_qr_roundtrip_shifted() {
    let params = QrGenParams::default();
    let groups = vec![
        b"red channel shifted".to_vec(),
        b"green channel shifted".to_vec(),
        b"blue channel shifted".to_vec(),
    ];
    let img = qr_gen::generate_color_qr(&groups, &params).unwrap();
    let width = img.width();
    let height = img.height();

    let mut bgra = rgb_to_bgra(&img.into_raw());

    // simulate color shift: compress values into [32..=224]
    for v in bgra.iter_mut() {
        *v = ((*v as f32 / 255.0) * 192.0 + 32.0) as u8;
    }

    let r_src = extract_channel_from_bgra(&bgra, Channel::R);
    let g_src = extract_channel_from_bgra(&bgra, Channel::G);
    let b_src = extract_channel_from_bgra(&bgra, Channel::B);

    let r_stretched = stretch_contrast(&r_src);
    let g_stretched = stretch_contrast(&g_src);
    let b_stretched = stretch_contrast(&b_src);

    let r_result = decode_qr(&r_stretched, width, height);
    let g_result = decode_qr(&g_stretched, width, height);
    let b_result = decode_qr(&b_stretched, width, height);

    assert!(r_result.is_ok(), "R decode failed after stretch");
    assert!(g_result.is_ok(), "G decode failed after stretch");
    assert!(b_result.is_ok(), "B decode failed after stretch");
    assert_eq!(r_result.unwrap(), b"red channel shifted");
    assert_eq!(g_result.unwrap(), b"green channel shifted");
    assert_eq!(b_result.unwrap(), b"blue channel shifted");
}

#[test]
fn extract_channel_partial_last_pixel() {
    let bgra = vec![1, 2, 3, 4, 5, 6];
    assert_eq!(extract_channel_from_bgra(&bgra, Channel::G), vec![2, 6]);
    assert_eq!(extract_channel_from_bgra(&[], Channel::B), Vec::<u8>::new());
}

#[test]
fn stretch_contrast_exact_values() {
    assert_eq!(stretch_contrast(&[10, 20, 30]), vec![0, 127, 255]);
    assert_eq!(stretch_contrast(&[]), Vec::<u8>::new());
    assert_eq!(stretch_contrast(&[5, 255]), vec![5, 255]);
}

#[test]
fn stretch_keeps_order() {
    let data = vec![50, 40, 60, 45, 55];
    let out = stretch_contrast(&data);
    for i in 0..data.len() {
        for j in 0..data.len() {
            if data[i] <= data[j] {
                assert!(out[i] <= out[j]);
            }
        }
    }
}

#[test]
fn decode_qr_fails_on_blank_image() {
    let gray = vec![255u8; 100 * 100];
    assert!(decode_qr(&gray, 100, 100).is_err());
}
