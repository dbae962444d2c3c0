//! Reading QR codes from screen pixels: channel extraction, contrast
//! stretching, and decoding (by `rxing`).
use vstd::prelude::*;

verus! {

/// What `rxing` decodes from a `width` x `height` luminance image (one byte
/// per pixel, row by row): the raw bytes of the QR code found, or `None`.
pub uninterp spec fn qr_decoded(gray: Seq<u8>, width: u32, height: u32) -> Option<Seq<u8>>;

/// Decodes a QR code with `rxing`: a `PlanarYUVLuminanceSource` over the whole
/// image, a `HybridBinarizer`, and `MultiFormatReader::decode`; the raw bytes
/// of the result. An error becomes a message that names the failing step.
///
/// Claimed of it: success and the bytes are a function of the image alone.
/// The `requires` keeps out empty images (rxing's bit matrix refuses zero
/// dimensions) and images shorter than `width * height`, on which the
/// luminance source would read past the buffer (its own check compares the
/// crop with the stated dimensions only). That the decoders return an error,
/// rather than panic, on every other image is taken from the crate: its
/// entry path returns errors for what it refuses, but not every decoder
/// behind it has been read line by line.
#[verifier::external_body]
fn rxing_decode(gray: &[u8], width: u32, height: u32) -> (r: Result<Vec<u8>, String>)
    requires
        width > 0,
        height > 0,
        width as nat * height as nat <= gray@.len(),
    ensures
        r matches Ok(v) ==> qr_decoded(gray@, width, height) == Some(v@),
        r is Err ==> qr_decoded(gray@, width, height) is None,
{
    let (w, h) = (width as usize, height as usize);
    let source = rxing::PlanarYUVLuminanceSource::new_with_all(gray.to_vec(), w, h, 0, 0, w, h, false, false)
        .map_err(|e| format!("Failed to create luminance source: {}", e))?;
    let mut bitmap = rxing::BinaryBitmap::new(rxing::common::HybridBinarizer::new(source));
    match rxing::Reader::decode(&mut rxing::MultiFormatReader::default(), &mut bitmap) {
        Ok(result) => Ok(result.getRawBytes().to_vec()),
        Err(e) => Err(format!("QR decode failed: {}", e)),
    }
}

/// Decodes the QR code in a `width` x `height` gray image.
pub fn decode_qr(gray_data: &[u8], width: u32, height: u32) -> (r: Result<Vec<u8>, String>)
    requires
        width > 0,
        height > 0,
        width as nat * height as nat <= gray_data@.len(),
    ensures
        r is Ok <==> qr_decoded(gray_data@, width, height) is Some,
        r matches Ok(v) ==> qr_decoded(gray_data@, width, height) == Some(v@),
{
    rxing_decode(gray_data, width, height)
}

/// A colour channel of a BGRA pixel.
#[derive(Debug, Clone, Copy, PartialEq, Eq)]
pub enum Channel {
    B,
    G,
    R,
}

/// The byte offset of a channel within a BGRA pixel.
pub open spec fn channel_offset(channel: Channel) -> nat {
    match channel {
        Channel::B => 0,
        Channel::G => 1,
        Channel::R => 2,
    }
}

/// The number of (possibly partial) 4-byte pixels in `len` bytes.
pub open spec fn pixel_count(len: nat) -> nat {
    if len % 4 == 0 {
        len / 4
    } else {
        len / 4 + 1
    }
}

/// Takes one channel out of BGRA pixels: one byte per pixel.
pub fn extract_channel_from_bgra(bgra: &[u8], channel: Channel) -> (out: Vec<u8>)
    requires
        bgra@.len() % 4 == 0 || bgra@.len() % 4 > channel_offset(channel),
    ensures
        out@.len() == pixel_count(bgra@.len()),
        forall|i: int|
            0 <= i < out@.len() ==> #[trigger] out@[i] == bgra@[4 * i + channel_offset(channel)],
{
    let idx: usize = match channel {
        Channel::B => 0,
        Channel::G => 1,
        Channel::R => 2,
    };
    let n: usize = bgra.len() / 4 + if bgra.len() % 4 != 0 {
        1
    } else {
        0
    };
    let mut out: Vec<u8> = Vec::new();
    let mut p: usize = 0;
    while p < n
        invariant
            idx == channel_offset(channel),
            bgra@.len() % 4 == 0 || bgra@.len() % 4 > idx,
            n == pixel_count(bgra@.len()),
            p <= n,
            out@.len() == p,
            forall|i: int| 0 <= i < out@.len() ==> #[trigger] out@[i] == bgra@[4 * i + idx],
        decreases n - p,
    {
        assert(4 * p + idx < bgra@.len()) by (nonlinear_arith)
            requires
                p < n,
                n == pixel_count(bgra@.len()),
                bgra@.len() % 4 == 0 || bgra@.len() % 4 > idx,
                idx < 4,
        {
            assert(bgra@.len() == 4 * (bgra@.len() / 4) + bgra@.len() % 4);
        }
        assert(bgra@.len() == bgra.len());
        out.push(bgra[4 * p + idx]);
        p = p + 1;
    }
    out
}

/// The smallest value of a non-empty sequence.
pub open spec fn seq_min(s: Seq<u8>) -> u8
    decreases s.len(),
{
    if s.len() <= 1 {
        s[0]
    } else {
        let m = seq_min(s.drop_last());
        if s.last() < m {
            s.last()
        } else {
            m
        }
    }
}

/// The largest value of a non-empty sequence.
pub open spec fn seq_max(s: Seq<u8>) -> u8
    decreases s.len(),
{
    if s.len() <= 1 {
        s[0]
    } else {
        let m = seq_max(s.drop_last());
        if s.last() > m {
            s.last()
        } else {
            m
        }
    }
}

/// Whether contrast stretching leaves `gray` as it is: empty, flat, or
/// already reaching 0 or 255.
pub open spec fn stretch_is_identity(gray: Seq<u8>) -> bool {
    gray.len() == 0 || seq_max(gray) <= seq_min(gray) || seq_max(gray) == 255 || seq_min(gray) == 0
}

/// The value `v` maps to when the range `lo..=hi` is stretched to `0..=255`.
pub open spec fn stretched_value(v: u8, lo: u8, hi: u8) -> u8 {
    (((v - lo) * 255) / (hi - lo as int)) as u8
}

/// Contrast stretching: the range of the values is mapped linearly onto
/// `0..=255` (rounding down), unless the values are flat or already reach 0
/// or 255.
pub open spec fn stretched(gray: Seq<u8>) -> Seq<u8> {
    if stretch_is_identity(gray) {
        gray
    } else {
        Seq::new(gray.len(), |i: int| stretched_value(gray[i], seq_min(gray), seq_max(gray)))
    }
}

proof fn lemma_min_max_bounds(s: Seq<u8>)
    requires
        s.len() > 0,
    ensures
        forall|i: int| 0 <= i < s.len() ==> seq_min(s) <= #[trigger] s[i] <= seq_max(s),
        exists|i: int| 0 <= i < s.len() && s[i] == seq_min(s),
        exists|i: int| 0 <= i < s.len() && s[i] == seq_max(s),
    decreases s.len(),
{
    if s.len() > 1 {
        lemma_min_max_bounds(s.drop_last());
        assert forall|i: int| 0 <= i < s.len() implies seq_min(s) <= #[trigger] s[i] <= seq_max(s) by {
            if i < s.len() - 1 {
                assert(s[i] == s.drop_last()[i]);
            }
        }
        let a = choose|i: int| 0 <= i < s.len() - 1 && s.drop_last()[i] == seq_min(s.drop_last());
        let b = choose|i: int| 0 <= i < s.len() - 1 && s.drop_last()[i] == seq_max(s.drop_last());
        if seq_min(s) != s.last() {
            assert(s[a] == seq_min(s));
        } else {
            assert(s[s.len() - 1] == seq_min(s));
        }
        if seq_max(s) != s.last() {
            assert(s[b] == seq_max(s));
        } else {
            assert(s[s.len() - 1] == seq_max(s));
        }
    } else {
        assert(s[0] == seq_min(s));
    }
}

/// Stretches the contrast of a gray image so that it spans `0..=255`.
pub fn stretch_contrast(gray: &[u8]) -> (out: Vec<u8>)
    ensures
        out@ == stretched(gray@),
{
    if gray.len() == 0 {
        return Vec::new();
    }
    let mut min: u8 = gray[0];
    let mut max: u8 = gray[0];
    let mut i: usize = 1;
    while i < gray.len()
        invariant
            1 <= i <= gray@.len(),
            min == seq_min(gray@.take(i as int)),
            max == seq_max(gray@.take(i as int)),
        decreases gray@.len() - i,
    {
        assert(gray@.take(i + 1).drop_last() =~= gray@.take(i as int));
        let v = gray[i];
        if v < min {
            min = v;
        }
        if v > max {
            max = v;
        }
        i = i + 1;
    }
    assert(gray@.take(gray@.len() as int) =~= gray@);
    if max <= min || max == 255 || min == 0 {
        return vstd::slice::slice_to_vec(gray);
    }
    proof {
        lemma_min_max_bounds(gray@);
    }
    let range = (max - min) as u32;
    let mut out: Vec<u8> = Vec::new();
    let mut j: usize = 0;
    while j < gray.len()
        invariant
            j <= gray@.len(),
            min == seq_min(gray@),
            max == seq_max(gray@),
            min < max,
            range == max - min,
            forall|k: int| 0 <= k < gray@.len() ==> min <= #[trigger] gray@[k] <= max,
            out@ =~= stretched(gray@).take(j as int),
            !stretch_is_identity(gray@),
        decreases gray@.len() - j,
    {
        let v = gray[j];
        assert(((v - min) * 255) / (range as int) <= 255) by (nonlinear_arith)
            requires
                0 <= v - min <= range,
                range > 0,
        ;
        let s = (((v as u32 - min as u32) * 255) / range) as u8;
        out.push(s);
        j = j + 1;
    }
    out
}

/// Stretching maps the darkest value to 0 and the brightest to 255.
pub proof fn lemma_stretch_reaches_extremes(gray: Seq<u8>, i: int)
    requires
        !stretch_is_identity(gray),
        0 <= i < gray.len(),
    ensures
        gray[i] == seq_min(gray) ==> stretched(gray)[i] == 0,
        gray[i] == seq_max(gray) ==> stretched(gray)[i] == 255,
{
    let lo = seq_min(gray);
    let hi = seq_max(gray);
    if gray[i] == hi {
        assert(((hi - lo) * 255) / (hi - lo as int) == 255) by (nonlinear_arith)
            requires
                hi > lo,
        ;
    }
}

/// A capture whose values lie strictly between 0 and 255 and are not all
/// equal, whatever its size, is stretched to span the whole range: the
/// result has the same length, its darkest pixel becomes 0, its brightest
/// 255, and the order of values is kept.
pub proof fn lemma_stretch_spans_full_range(gray: Seq<u8>, a: int, b: int)
    requires
        forall|i: int| 0 <= i < gray.len() ==> 0 < #[trigger] gray[i] < 255,
        0 <= a < gray.len(),
        0 <= b < gray.len(),
        gray[a] != gray[b],
    ensures
        stretched(gray).len() == gray.len(),
        exists|i: int| 0 <= i < gray.len() && #[trigger] stretched(gray)[i] == 0,
        exists|i: int| 0 <= i < gray.len() && #[trigger] stretched(gray)[i] == 255,
        forall|i: int, j: int|
            0 <= i < gray.len() && 0 <= j < gray.len() && gray[i] <= gray[j] ==> #[trigger] stretched(
                gray,
            )[i] <= #[trigger] stretched(gray)[j],
{
    lemma_min_max_bounds(gray);
    assert(seq_min(gray) <= gray[a] && seq_min(gray) <= gray[b]);
    assert(gray[a] <= seq_max(gray) && gray[b] <= seq_max(gray));
    let lo = choose|i: int| 0 <= i < gray.len() && gray[i] == seq_min(gray);
    let hi = choose|i: int| 0 <= i < gray.len() && gray[i] == seq_max(gray);
    assert(0 < gray[lo] && gray[hi] < 255);
    assert(!stretch_is_identity(gray));
    lemma_stretch_reaches_extremes(gray, lo);
    lemma_stretch_reaches_extremes(gray, hi);
    assert(stretched(gray)[lo] == 0);
    assert(stretched(gray)[hi] == 255);
    assert forall|i: int, j: int|
        0 <= i < gray.len() && 0 <= j < gray.len() && gray[i] <= gray[j] implies #[trigger] stretched(
            gray,
        )[i] <= #[trigger] stretched(gray)[j] by {
        lemma_stretch_monotonic(gray, i, j);
    }
}

/// A capture that is flat, or already reaches 0 or 255, is left as it is.
pub proof fn lemma_stretch_leaves_full_or_flat(gray: Seq<u8>)
    requires
        (forall|i: int, j: int| 0 <= i < gray.len() && 0 <= j < gray.len() ==> gray[i] == gray[j])
            || (exists|i: int| 0 <= i < gray.len() && (gray[i] == 0 || gray[i] == 255)),
    ensures
        stretched(gray) == gray,
{
    if gray.len() > 0 {
        lemma_min_max_bounds(gray);
        let lo = choose|i: int| 0 <= i < gray.len() && gray[i] == seq_min(gray);
        let hi = choose|i: int| 0 <= i < gray.len() && gray[i] == seq_max(gray);
        if exists|i: int| 0 <= i < gray.len() && (gray[i] == 0 || gray[i] == 255) {
            let k = choose|i: int| 0 <= i < gray.len() && (gray[i] == 0 || gray[i] == 255);
            assert(seq_min(gray) <= gray[k] <= seq_max(gray));
        } else {
            assert(gray[lo] == gray[hi]);
        }
    }
}

/// Stretching keeps the order of values.
pub proof fn lemma_stretch_monotonic(gray: Seq<u8>, i: int, j: int)
    requires
        !stretch_is_identity(gray),
        0 <= i < gray.len(),
        0 <= j < gray.len(),
        gray[i] <= gray[j],
    ensures
        stretched(gray)[i] <= stretched(gray)[j],
{
    lemma_min_max_bounds(gray);
    let lo = seq_min(gray) as int;
    let hi = seq_max(gray) as int;
    let a = gray[i] as int;
    let b = gray[j] as int;
    assert((a - lo) * 255 / (hi - lo) <= (b - lo) * 255 / (hi - lo) && (b - lo) * 255 / (hi - lo)
        <= 255) by (nonlinear_arith)
        requires
            lo <= a <= b <= hi,
            lo < hi,
    ;
}

} // verus!
