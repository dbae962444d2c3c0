use clip_glimpse::icon::create_app_icon;

fn reference_icon() -> Vec<u8> {
    let size = 16u32;
    let mut rgba = vec![255u8; (size * size * 4) as usize];
    let set = |rgba: &mut [u8], x: u32, y: u32| {
        let i = ((y * size + x) * 4) as usize;
        rgba[i] = 0;
        rgba[i + 1] = 0;
        rgba[i + 2] = 0;
        rgba[i + 3] = 255;
    };
    let is_in = |x: u32, y: u32, rx: std::ops::Range<u32>, ry: std::ops::Range<u32>| -> bool {
        rx.contains(&x) && ry.contains(&y)
    };
    for y in 0..size {
        for x in 0..size {
            if x == 0 || y == 0 || x == size - 1 || y == size - 1 {
                set(&mut rgba, x, y);
            }
            if is_in(x, y, 1..4, 1..2) || is_in(x, y, 1..4, 3..4) || is_in(x, y, 1..2, 1..4) || is_in(x, y, 3..4, 1..4) {
                set(&mut rgba, x, y);
            }
            if is_in(x, y, 12..15, 1..2) || is_in(x, y, 12..15, 3..4) || is_in(x, y, 12..13, 1..4) || is_in(x, y, 14..15, 1..4) {
                set(&mut rgba, x, y);
            }
            if is_in(x, y, 1..4, 12..13) || is_in(x, y, 1..4, 14..15) || is_in(x, y, 1..2, 12..15) || is_in(x, y, 3..4, 12..15) {
                set(&mut rgba, x, y);
            }
            if is_in(x, y, 6..10, 6..10) && (x + y) % 2 == 0 {
                set(&mut rgba, x, y);
            }
            if (x == 6 && y > 4 && y < 11) || (y == 6 && x > 4 && x < 11) {
                set(&mut rgba, x, y);
            }
        }
    }
    rgba
}

#[test]
fn icon_matches_pixel_rules() {
    let icon = create_app_icon();
    assert_eq!(icon.width, 16);
    assert_eq!(icon.height, 16);
    assert_eq!(icon.rgba, reference_icon());
}

#[test]
fn icon_corners_and_centre() {
    let icon = create_app_icon();
    let px = |x: usize, y: usize| &icon.rgba[(y * 16 + x) * 4..(y * 16 + x) * 4 + 4];
    assert_eq!(px(0, 0), &[0, 0, 0, 255]);
    assert_eq!(px(2, 2), &[255, 255, 255, 255]);
    assert_eq!(px(6, 8), &[0, 0, 0, 255]);
    assert_eq!(px(7, 8), &[255, 255, 255, 255]);
}
