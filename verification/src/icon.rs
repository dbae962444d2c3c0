//! The programmatic 16x16 window icon: a border, three finder patterns, a
//! checkered centre and two timing lines, black on white.
use vstd::prelude::*;

verus! {

/// An RGBA image, 4 bytes per pixel, row by row.
#[derive(Debug, Clone)]
pub struct IconImage {
    pub width: u32,
    pub height: u32,
    pub rgba: Vec<u8>,
}

/// The side of the icon.
pub const ICON_SIZE: u32 = 16;

/// Whether (x, y) lies in the half-open ranges `x0..x1` and `y0..y1`.
pub open spec fn in_box(x: int, y: int, x0: int, x1: int, y0: int, y1: int) -> bool {
    x0 <= x < x1 && y0 <= y < y1
}

/// Whether the icon pixel at (x, y) is black.
pub open spec fn icon_dark(x: int, y: int) -> bool {
    // border
    ||| x == 0 || y == 0 || x == 15 || y == 15
    // top-left finder
    ||| in_box(x, y, 1, 4, 1, 2) || in_box(x, y, 1, 4, 3, 4) || in_box(x, y, 1, 2, 1, 4) || in_box(x, y, 3, 4, 1, 4)
    // top-right finder
    ||| in_box(x, y, 12, 15, 1, 2) || in_box(x, y, 12, 15, 3, 4) || in_box(x, y, 12, 13, 1, 4) || in_box(x, y, 14, 15, 1, 4)
    // bottom-left finder
    ||| in_box(x, y, 1, 4, 12, 13) || in_box(x, y, 1, 4, 14, 15) || in_box(x, y, 1, 2, 12, 15) || in_box(x, y, 3, 4, 12, 15)
    // checkered centre
    ||| in_box(x, y, 6, 10, 6, 10) && (x + y) % 2 == 0
    // timing lines
    ||| (x == 6 && 4 < y < 11) || (y == 6 && 4 < x < 11)
}

/// Byte `k` of the icon's RGBA data: black or white, always opaque.
pub open spec fn icon_byte(k: int) -> u8 {
    let p = k / 4;
    if k % 4 == 3 || !icon_dark(p % 16, p / 16) {
        255
    } else {
        0
    }
}

fn is_dark(x: u32, y: u32) -> (b: bool)
    requires
        x < 16,
        y < 16,
    ensures
        b == icon_dark(x as int, y as int),
{
    let border = x == 0 || y == 0 || x == 15 || y == 15;
    let top_left = (1 <= x && x < 4 && 1 <= y && y < 2) || (1 <= x && x < 4 && 3 <= y && y < 4) || (1
        <= x && x < 2 && 1 <= y && y < 4) || (3 <= x && x < 4 && 1 <= y && y < 4);
    let top_right = (12 <= x && x < 15 && 1 <= y && y < 2) || (12 <= x && x < 15 && 3 <= y && y < 4)
        || (12 <= x && x < 13 && 1 <= y && y < 4) || (14 <= x && x < 15 && 1 <= y && y < 4);
    let bottom_left = (1 <= x && x < 4 && 12 <= y && y < 13) || (1 <= x && x < 4 && 14 <= y && y
        < 15) || (1 <= x && x < 2 && 12 <= y && y < 15) || (3 <= x && x < 4 && 12 <= y && y < 15);
    let centre = 6 <= x && x < 10 && 6 <= y && y < 10 && (x + y) % 2 == 0;
    let timing = (x == 6 && y > 4 && y < 11) || (y == 6 && x > 4 && x < 11);
    border || top_left || top_right || bottom_left || centre || timing
}

/// The window icon.
pub fn create_app_icon() -> (icon: IconImage)
    ensures
        icon.width == ICON_SIZE,
        icon.height == ICON_SIZE,
        icon.rgba@.len() == 16 * 16 * 4,
        forall|k: int| 0 <= k < 16 * 16 * 4 ==> #[trigger] icon.rgba@[k] == icon_byte(k),
{
    let mut rgba: Vec<u8> = Vec::new();
    let mut k: u32 = 0;
    while k < 16 * 16 * 4
        invariant
            k <= 16 * 16 * 4,
            rgba@.len() == k,
            forall|j: int| 0 <= j < k ==> #[trigger] rgba@[j] == icon_byte(j),
        decreases 16 * 16 * 4 - k,
    {
        let p = k / 4;
        let v: u8 = if k % 4 == 3 || !is_dark(p % 16, p / 16) {
            255
        } else {
            0
        };
        rgba.push(v);
        k = k + 1;
    }
    IconImage { width: ICON_SIZE, height: ICON_SIZE, rgba }
}

} // verus!
