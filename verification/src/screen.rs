//! Screen regions. Capturing pixels from the screen is the program's I/O and
//! stays outside the library.
use vstd::prelude::*;

verus! {

/// A rectangle of the screen, in pixels: top-left corner and size.
#[derive(Debug, Clone, Copy)]
pub struct CaptureRegion {
    pub x: i32,
    pub y: i32,
    pub width: u32,
    pub height: u32,
}

/// Whether (x, y) lies in the region, with the right and bottom edges
/// computed in `i32` (the width and height taken as `i32`).
pub open spec fn region_contains(r: CaptureRegion, x: i32, y: i32) -> bool {
    x >= r.x && x < r.x + (r.width as i32) && y >= r.y && y < r.y + (r.height as i32)
}

impl CaptureRegion {
    pub fn new(x: i32, y: i32, width: u32, height: u32) -> (r: Self)
        ensures
            r == (CaptureRegion { x, y, width, height }),
    {
        CaptureRegion { x, y, width, height }
    }

    /// Whether the pixel (x, y) lies in the region.
    pub fn contains(&self, x: i32, y: i32) -> (b: bool)
        requires
            x >= self.x ==> i32::MIN <= self.x + (self.width as i32) <= i32::MAX,
            x >= self.x && x < self.x + (self.width as i32) && y >= self.y ==> i32::MIN <= self.y
                + (self.height as i32) <= i32::MAX,
        ensures
            b == region_contains(*self, x, y),
    {
        x >= self.x && x < self.x + self.width as i32 && y >= self.y && y < self.y
            + self.height as i32
    }
}

} // verus!
