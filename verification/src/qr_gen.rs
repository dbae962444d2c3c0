//! QR image generation: the module matrix comes from the `qrcode` crate; the
//! layout of the RGB image (quiet zone, module size, one QR code per colour
//! channel) is computed here.
use vstd::prelude::*;
use vstd::arithmetic::div_mod::{lemma_fundamental_div_mod, lemma_mod_pos_bound};
use vstd::slice::slice_to_vec;

verus! {

/// QR error-correction level.
#[derive(Debug, Clone, Copy, PartialEq, Eq)]
pub enum EcLevel {
    L,
    M,
    Q,
    H,
}

/// Parameters of QR generation: the (normal) QR version, the error
/// correction level and the size of one module in pixels.
#[derive(Debug, Clone, Copy)]
pub struct QrGenParams {
    pub version: i16,
    pub ec_level: EcLevel,
    pub module_size_px: u32,
}

impl Default for QrGenParams {
    fn default() -> (p: Self)
        ensures
            p.version == 25,
            p.ec_level == EcLevel::M,
            p.module_size_px == 3,
    {
        QrGenParams { version: 25, ec_level: EcLevel::M, module_size_px: 3 }
    }
}

/// The module matrix that `qrcode::QrCode::with_version` builds for `data` at
/// normal version `version` and level `ec_level`, row by row, `true` for a
/// dark module; `None` where it reports an error.
pub uninterp spec fn qr_modules(data: Seq<u8>, version: i16, ec_level: EcLevel) -> Option<Seq<bool>>;

/// Calls `qrcode::QrCode::with_version(data, Version::Normal(version), level)`
/// and returns `width()` and `to_colors()` (dark as `true`).
///
/// Claimed of it: the matrix is a function of the arguments. On success the
/// version lies in 1..=40 (the crate's tables, which it consults before
/// succeeding, cover no others), the width is `4 * version + 17` (the crate's
/// `Version::width`) and the matrix holds `width * width` modules.
#[verifier::external_body]
fn qrcode_with_version(data: &[u8], version: i16, ec_level: EcLevel) -> (r: Option<(usize, Vec<bool>)>)
    ensures
        r matches Some((w, m)) ==> {
            &&& qr_modules(data@, version, ec_level) == Some(m@)
            &&& 1 <= version <= 40
            &&& w == 4 * version + 17
            &&& m@.len() == w * w
        },
        r is None ==> qr_modules(data@, version, ec_level) is None,
{
    let level = match ec_level {
        EcLevel::L => qrcode::EcLevel::L,
        EcLevel::M => qrcode::EcLevel::M,
        EcLevel::Q => qrcode::EcLevel::Q,
        EcLevel::H => qrcode::EcLevel::H,
    };
    let code = qrcode::QrCode::with_version(data, qrcode::Version::Normal(version), level).ok()?;
    let dark = code.to_colors().iter().map(|c| match c {
        qrcode::Color::Dark => true,
        qrcode::Color::Light => false,
    }).collect();
    Some((code.width(), dark))
}

/// An RGB image, 3 bytes per pixel, row by row.
#[derive(Debug, Clone)]
pub struct QrImage {
    width: u32,
    height: u32,
    pixels: Vec<u8>,
}

/// The value of an image: its dimensions and its bytes.
pub struct QrImageView {
    pub width: u32,
    pub height: u32,
    pub pixels: Seq<u8>,
}

impl View for QrImage {
    type V = QrImageView;

    closed spec fn view(&self) -> QrImageView {
        QrImageView { width: self.width, height: self.height, pixels: self.pixels@ }
    }
}

impl QrImage {
    /// Width in pixels.
    pub fn width(&self) -> (w: u32)
        ensures
            w == self@.width,
    {
        self.width
    }

    /// Height in pixels.
    pub fn height(&self) -> (h: u32)
        ensures
            h == self@.height,
    {
        self.height
    }

    /// The RGB bytes, row by row.
    pub fn as_raw(&self) -> (r: &[u8])
        ensures
            r@ == self@.pixels,
    {
        self.pixels.as_slice()
    }

    /// The RGB bytes, row by row.
    pub fn into_raw(self) -> (r: Vec<u8>)
        ensures
            r@ == self@.pixels,
    {
        self.pixels
    }
}

/// The side of the image, in pixels, for a `w`-module code with modules of
/// `s` pixels and a quiet zone of one module on each side.
pub open spec fn image_side(w: nat, s: nat) -> nat {
    (w + 2) * s
}

/// The shade (0 or 255) that one channel's code gives the pixel at (px, py):
/// dark (0) inside the code area on a dark module, light (255) elsewhere and
/// for a missing code.
pub open spec fn module_shade(code: Option<Seq<bool>>, w: nat, s: nat, px: nat, py: nat) -> u8 {
    match code {
        Some(m) => if s <= px && px < (w + 1) * s && s <= py && py < (w + 1) * s && m[(((py - s)
            as nat / s) * w + (px - s) as nat / s) as int] {
            0
        } else {
            255
        },
        None => 255,
    }
}

/// The RGB bytes of the image whose red, green and blue channels show
/// `codes[0]`, `codes[1]` and `codes[2]`.
pub open spec fn rendered_pixels(codes: Seq<Option<Seq<bool>>>, w: nat, s: nat) -> Seq<u8> {
    let full = image_side(w, s);
    Seq::new(
        full * full * 3,
        |k: int| module_shade(codes[k % 3], w, s, ((k / 3) % (full as int)) as nat, ((k / 3) / (full as int)) as nat),
    )
}

/// Whether images for codes of normal version `version` with modules of `s`
/// pixels fit: the side in a `u32`, the bytes in memory.
pub open spec fn image_fits(version: i16, s: u32) -> bool {
    1 <= version <= 40 ==> {
        let full = image_side((4 * version + 17) as nat, s as nat);
        &&& full <= u32::MAX
        &&& full * full * 3 <= usize::MAX
    }
}

/// Whether `generate_qr` and `generate_color_qr` accept these parameters:
/// the image for a code of this version fits a `u32` side and memory.
pub fn params_fit(params: &QrGenParams) -> (b: bool)
    ensures
        b == image_fits(params.version, params.module_size_px),
{
    if params.version < 1 || params.version > 40 {
        return true;
    }
    let w = (4 * params.version + 17) as u128;
    assert((w + 2) * (params.module_size_px as u128) <= 200 * 0x1_0000_0000) by (nonlinear_arith)
        requires
            w + 2 <= 200,
            params.module_size_px <= 0xffff_ffff,
    ;
    let full = (w + 2) * (params.module_size_px as u128);
    if full > u32::MAX as u128 {
        return false;
    }
    assert(full * full * 3 <= u128::MAX) by (nonlinear_arith)
        requires
            full <= u32::MAX,
    ;
    full * full * 3 <= usize::MAX as u128
}

/// The black-and-white QR image of `data`, if `qrcode` can encode it.
pub open spec fn qr_image_of(data: Seq<u8>, params: QrGenParams) -> Option<QrImageView> {
    match qr_modules(data, params.version, params.ec_level) {
        None => None,
        Some(m) => {
            let w = (4 * params.version + 17) as nat;
            let s = params.module_size_px as nat;
            Some(
                QrImageView {
                    width: image_side(w, s) as u32,
                    height: image_side(w, s) as u32,
                    pixels: rendered_pixels(seq![Some(m), Some(m), Some(m)], w, s),
                },
            )
        },
    }
}

/// The code of colour channel `i` for the group: that of the `i`-th payload,
/// when there is one and `qrcode` can encode it.
pub open spec fn channel_code(group: Seq<Seq<u8>>, params: QrGenParams, i: int) -> Option<Seq<bool>> {
    if 0 <= i < group.len() && i < 3 {
        qr_modules(group[i], params.version, params.ec_level)
    } else {
        None
    }
}

/// The colour QR image of up to three payloads (red, green, blue), if at
/// least one of them can be encoded.
pub open spec fn color_qr_image_of(group: Seq<Seq<u8>>, params: QrGenParams) -> Option<QrImageView> {
    let codes = Seq::new(3, |i: int| channel_code(group, params, i));
    if group.len() == 0 || (codes[0] is None && codes[1] is None && codes[2] is None) {
        None
    } else {
        let w = (4 * params.version + 17) as nat;
        let s = params.module_size_px as nat;
        Some(
            QrImageView {
                width: image_side(w, s) as u32,
                height: image_side(w, s) as u32,
                pixels: rendered_pixels(codes, w, s),
            },
        )
    }
}

proof fn lemma_div_below(a: int, s: int, w: int)
    requires
        0 <= a < w * s,
        s > 0,
    ensures
        0 <= a / s < w,
{
    lemma_fundamental_div_mod(a, s);
    lemma_mod_pos_bound(a, s);
    let q = a / s;
    let r = a % s;
    assert(0 <= q < w) by (nonlinear_arith)
        requires
            a == s * q + r,
            0 <= r < s,
            0 <= a < w * s,
            s > 0,
    ;
}

/// The value of an optional module matrix.
pub open spec fn slot_view(c: Option<Vec<bool>>) -> Option<Seq<bool>> {
    match c {
        Some(m) => Some(m@),
        None => None,
    }
}

fn shade(code: &Option<Vec<bool>>, w: usize, s: usize, px: usize, py: usize) -> (v: u8)
    requires
        code matches Some(m) ==> m@.len() == w * w,
        (w + 2) * s <= usize::MAX,
        w + 2 <= usize::MAX,
    ensures
        v == module_shade(
            match code {
                Some(m) => Some(m@),
                None => None,
            },
            w as nat,
            s as nat,
            px as nat,
            py as nat,
        ),
{
    match code {
        None => 255,
        Some(m) => {
            assert((w + 1) * s <= (w + 2) * s) by (nonlinear_arith)
                requires
                    s >= 0,
            ;
            let hi = (w + 1) * s;
            assert(m@.len() == m.len());
            if s <= px && px < hi && s <= py && py < hi {
                assert((w + 1) * s == w * s + s) by (nonlinear_arith);
                proof {
                    lemma_div_below((px - s) as int, s as int, w as int);
                    lemma_div_below((py - s) as int, s as int, w as int);
                }
                let x = (px - s) / s;
                let y = (py - s) / s;
                assert(y * w + x < w * w) by (nonlinear_arith)
                    requires
                        x < w,
                        y < w,
                ;
                if m[y * w + x] {
                    0
                } else {
                    255
                }
            } else {
                255
            }
        },
    }
}

/// The RGB bytes of an image whose channels show the given codes.
fn render(codes: &Vec<Option<Vec<bool>>>, w: usize, s: usize) -> (pixels: Vec<u8>)
    requires
        codes@.len() == 3,
        forall|i: int| 0 <= i < 3 ==> (#[trigger] codes@[i] matches Some(m) ==> m@.len() == w * w),
        (w + 2) * s * ((w + 2) * s) * 3 <= usize::MAX,
        (w + 2) * s <= usize::MAX,
        w + 2 <= usize::MAX,
    ensures
        pixels@ == rendered_pixels(
            codes@.map_values(|c: Option<Vec<bool>>| slot_view(c)),
            w as nat,
            s as nat,
        ),
{
    let ghost views = codes@.map_values(|c: Option<Vec<bool>>| slot_view(c));
    let full = (w + 2) * s;
    let n = full * full * 3;
    let mut pixels: Vec<u8> = Vec::new();
    let mut k: usize = 0;
    while k < n
        invariant
            full == (w + 2) * s,
            n == full * full * 3,
            (w + 2) * s <= usize::MAX,
            w + 2 <= usize::MAX,
            k <= n,
            codes@.len() == 3,
            forall|i: int| 0 <= i < 3 ==> (#[trigger] codes@[i] matches Some(m) ==> m@.len() == w * w),
            views == codes@.map_values(|c: Option<Vec<bool>>| slot_view(c)),
            pixels@ =~= rendered_pixels(views, w as nat, s as nat).take(k as int),
        decreases n - k,
    {
        let p = k / 3;
        let v = shade(&codes[k % 3], w, s, p % full, p / full);
        pixels.push(v);
        k = k + 1;
    }
    pixels
}

/// The black-and-white QR image of `data`: the code's modules as squares of
/// `module_size_px` pixels, black on white, with a one-module white border;
/// `None` when `qrcode` cannot encode `data` with these parameters.
pub fn generate_qr(data: &[u8], params: &QrGenParams) -> (img: Option<QrImage>)
    requires
        image_fits(params.version, params.module_size_px),
    ensures
        match img {
            Some(i) => qr_image_of(data@, *params) == Some(i@),
            None => qr_image_of(data@, *params) is None,
        },
{
    let (modules, code) = match qrcode_with_version(data, params.version, params.ec_level) {
        Some(r) => r,
        None => {
            return None;
        },
    };
    let ghost m = code@;
    let s = params.module_size_px as usize;
    let full = (modules + 2) * s;
    let mut codes: Vec<Option<Vec<bool>>> = Vec::new();
    codes.push(Some(slice_to_vec(code.as_slice())));
    codes.push(Some(slice_to_vec(code.as_slice())));
    codes.push(Some(code));
    let pixels = render(&codes, modules, s);
    let img = QrImage { width: full as u32, height: full as u32, pixels };
    assert(codes@.map_values(|c: Option<Vec<bool>>| slot_view(c)) =~= seq![Some(m), Some(m), Some(m)]);
    Some(img)
}

/// The colour QR image of up to three payloads: the first in the red
/// channel, the second in green, the third in blue. A channel whose payload
/// is missing or cannot be encoded stays white. `None` for an empty group or
/// when no payload can be encoded.
pub fn generate_color_qr(group: &[Vec<u8>], params: &QrGenParams) -> (img: Option<QrImage>)
    requires
        image_fits(params.version, params.module_size_px),
    ensures
        match img {
            Some(i) => color_qr_image_of(group@.map_values(|v: Vec<u8>| v@), *params) == Some(
                i@,
            ),
            None => color_qr_image_of(group@.map_values(|v: Vec<u8>| v@), *params) is None,
        },
{
    if group.len() == 0 {
        return None;
    }
    let count = if group.len() < 3 {
        group.len()
    } else {
        3
    };
    let mut codes: Vec<Option<Vec<bool>>> = Vec::new();
    let mut modules: usize = 0;
    let mut i: usize = 0;
    let ghost gv = group@.map_values(|v: Vec<u8>| v@);
    let ghost cv = Seq::new(3, |j: int| channel_code(gv, *params, j));
    while i < 3
        invariant
            i <= 3,
            codes@.len() == i,
            count == if group@.len() < 3 {
                group@.len()
            } else {
                3
            },
            gv == group@.map_values(|v: Vec<u8>| v@),
            cv == Seq::new(3, |j: int| channel_code(gv, *params, j)),
            forall|j: int|
                0 <= j < i ==> #[trigger] slot_view(codes@[j]) == cv[j],
            forall|j: int|
                0 <= j < i ==> (#[trigger] codes@[j] matches Some(m) ==> m@.len() == modules * modules),
            modules == 0 <==> (forall|j: int| 0 <= j < i ==> #[trigger] cv[j] is None),
            modules != 0 ==> 1 <= params.version <= 40 && modules == 4 * params.version + 17,
        decreases 3 - i,
    {
        if i < count {
            assert(group@[i as int]@ == gv[i as int]);
            assert(cv[i as int] == qr_modules(gv[i as int], params.version, params.ec_level));
            match qrcode_with_version(group[i].as_slice(), params.version, params.ec_level) {
                Some((w, m)) => {
                    if modules == 0 {
                        modules = w;
                    }
                    codes.push(Some(m));
                },
                None => {
                    codes.push(None);
                },
            }
        } else {
            assert(cv[i as int] is None);
            codes.push(None);
        }
        assert(slot_view(codes@[i as int]) == cv[i as int]);
        assert forall|j: int| 0 <= j < i + 1 implies (#[trigger] codes@[j] matches Some(m) ==> m@.len()
            == modules * modules) by {
            if j < i && codes@[j] is Some {
                assert(slot_view(codes@[j]) == cv[j]);
            }
        }
        i = i + 1;
    }
    if modules == 0 {
        assert(cv[0] is None && cv[1] is None && cv[2] is None);
        return None;
    }
    let s = params.module_size_px as usize;
    let full = (modules + 2) * s;
    let pixels = render(&codes, modules, s);
    assert(codes@.map_values(|c: Option<Vec<bool>>| slot_view(c)) =~= cv);
    Some(QrImage { width: full as u32, height: full as u32, pixels })
}

} // verus!
