//! A 256-bit perceptual fingerprint of an 8-bit RGB PNG: the image is
//! resampled to 16x16, turned to luminance, and each pixel gives one bit,
//! set where it is at least the mean luminance.
use vstd::prelude::*;
use image::ImageDecoder;

verus! {

/// Why an image could not be fingerprinted.
#[derive(Clone, Copy, Debug, PartialEq, Eq, Structural)]
pub enum HashError {
    /// The bytes are not a PNG image with at least one pixel.
    Decode,
    /// The image decodes, but not as 8-bit RGB without alpha.
    UnsupportedFormat,
}

/// Side of the square that images are resampled to.
pub const SIDE: usize = 16;

/// Number of pixels of the resampled image, one fingerprint bit each.
pub const CELLS: usize = 256;

/// Number of bytes in a fingerprint.
pub const FINGERPRINT_LEN: usize = 32;

/// A decoded 8-bit RGB image: interleaved channels, row-major.
pub struct RgbRaster {
    pub width: u32,
    pub height: u32,
    pub pixels: Vec<u8>,
}

/// The pixel layout that the PNG decoder reports for an image; `Other`
/// covers the floating-point layouts and any the decoder adds later.
#[derive(Clone, Copy, Debug, PartialEq, Eq, Structural)]
pub enum PixelFormat {
    L8,
    La8,
    Rgb8,
    Rgba8,
    L16,
    La16,
    Rgb16,
    Rgba16,
    Other,
}

/// What the PNG decoder reads from the header of `bytes`: `None` where they
/// do not start a PNG image; else the pixel format it decodes to, and the
/// width and height.
pub uninterp spec fn png_header(bytes: Seq<u8>) -> Option<(PixelFormat, u32, u32)>;

/// The interleaved pixels that the PNG decoder reads from `bytes`, or `None`
/// where their image data is broken.
pub uninterp spec fn png_pixels(bytes: Seq<u8>) -> Option<Seq<u8>>;

/// Number of pixels of the image whose header `bytes` start with.
pub open spec fn png_area(bytes: Seq<u8>) -> nat {
    match png_header(bytes) {
        Some((_, w, h)) => (w * h) as nat,
        None => 0,
    }
}

/// Offset of the colour-type byte of the header chunk in a PNG file: after
/// the 8-byte signature, the chunk's length and name (8 bytes), and the
/// width, height and bit depth (9 bytes).
pub const COLOUR_TYPE_OFFSET: usize = 25;

/// The colour type of an indexed (palette) PNG image.
pub const INDEXED_COLOUR: u8 = 3;

/// The PNG header of `bytes` declares a palette image (which the decoder
/// would expand to RGB).
pub open spec fn is_indexed_png(bytes: Seq<u8>) -> bool {
    bytes.len() > COLOUR_TYPE_OFFSET && bytes[COLOUR_TYPE_OFFSET as int] == INDEXED_COLOUR
}

/// The 16x16 Lanczos3 resampling of a `width * height` RGB raster, as
/// interleaved RGB bytes.
pub uninterp spec fn lanczos3_16x16(width: u32, height: u32, pixels: Seq<u8>) -> Seq<u8>;

/// Luminance of one pixel, with the sRGB weights 0.2126, 0.7152, 0.0722,
/// truncated.
pub open spec fn luma(r: u8, g: u8, b: u8) -> u8 {
    ((2126 * r + 7152 * g + 722 * b) / 10000) as u8
}

/// The luminance of each pixel of an interleaved RGB raster.
pub open spec fn luma_of_rgb(rgb: Seq<u8>) -> Seq<u8> {
    Seq::new(rgb.len() / 3, |i: int| luma(rgb[3 * i], rgb[3 * i + 1], rgb[3 * i + 2]))
}

/// Sum of the values of `s`.
pub open spec fn sum_of(s: Seq<u8>) -> nat
    decreases s.len(),
{
    if s.len() == 0 {
        0
    } else {
        sum_of(s.drop_last()) + s.last() as nat
    }
}

/// Mean of the 256 luminance values, truncated.
pub open spec fn mean_of(luma: Seq<u8>) -> nat {
    sum_of(luma) / 256
}

/// The bit of pixel `i`: 0 where it is darker than `avg`, else 1.
pub open spec fn bit_of(luma: Seq<u8>, avg: nat, i: int) -> nat {
    if luma[i] < avg {
        0
    } else {
        1
    }
}

/// The bits of pixels `start .. start + n`, first pixel most significant.
pub open spec fn packed(luma: Seq<u8>, avg: nat, start: int, n: nat) -> nat
    decreases n,
{
    if n == 0 {
        0
    } else {
        2 * packed(luma, avg, start, (n - 1) as nat) + bit_of(luma, avg, start + n - 1)
    }
}

/// The fingerprint of 256 luminance values: byte `j` packs the bits of
/// pixels `8j .. 8j + 8`, most significant bit first.
pub open spec fn fingerprint(luma: Seq<u8>) -> Seq<u8> {
    Seq::new(32, |j: int| packed(luma, mean_of(luma), 8 * j, 8) as u8)
}

/// A bound on `packed` over `n` bits.
pub open spec fn bit_cap(n: nat) -> nat
    decreases n,
{
    if n == 0 {
        1
    } else {
        2 * bit_cap((n - 1) as nat)
    }
}

proof fn lemma_sum_bound(s: Seq<u8>)
    ensures
        sum_of(s) <= 255 * s.len(),
    decreases s.len(),
{
    if s.len() > 0 {
        lemma_sum_bound(s.drop_last());
    }
}

/// The fingerprint of 256 luminance values, in raster order.
pub fn fingerprint_from_luma(luma: &[u8]) -> (r: [u8; 32])
    requires
        luma@.len() == CELLS,
    ensures
        r@ == fingerprint(luma@),
{
    let mut sum: usize = 0;
    let mut i: usize = 0;
    while i < CELLS
        invariant
            luma@.len() == CELLS,
            i <= CELLS,
            sum == sum_of(luma@.take(i as int)),
        decreases CELLS - i,
    {
        proof {
            lemma_sum_bound(luma@.take(i as int));
            assert(luma@.take(i as int + 1).drop_last() =~= luma@.take(i as int));
        }
        sum = sum + luma[i] as usize;
        i = i + 1;
    }
    assert(luma@.take(CELLS as int) =~= luma@);
    let avg: u8 = (sum / CELLS) as u8;
    assert(avg == mean_of(luma@)) by {
        lemma_sum_bound(luma@);
    }
    let mut out: [u8; 32] = [0u8; 32];
    let mut j: usize = 0;
    while j < FINGERPRINT_LEN
        invariant
            luma@.len() == CELLS,
            avg == mean_of(luma@),
            j <= FINGERPRINT_LEN,
            forall|jj: int| 0 <= jj < j ==> #[trigger] out@[jj] == fingerprint(luma@)[jj],
        decreases FINGERPRINT_LEN - j,
    {
        let mut acc: u8 = 0;
        let mut k: usize = 0;
        while k < 8
            invariant
                luma@.len() == CELLS,
                j < FINGERPRINT_LEN,
                k <= 8,
                acc == packed(luma@, avg as nat, 8 * j, k as nat),
                acc < bit_cap(k as nat),
            decreases 8 - k,
        {
            let bit: u8 = if luma[8 * j + k] < avg { 0 } else { 1 };
            proof {
                reveal_with_fuel(bit_cap, 9);
                assert(bit_cap(k as nat) <= 128);
            }
            acc = acc * 2 + bit;
            k = k + 1;
        }
        out[j] = acc;
        j = j + 1;
    }
    assert(out@ =~= fingerprint(luma@));
    out
}

/// Relies on image's `PngDecoder::new`, `color_type` and `dimensions`: the
/// format and size that the decoder reads from the header.
#[verifier::external_body]
fn read_png_header(bytes: &[u8]) -> (r: Option<(PixelFormat, u32, u32)>)
    ensures
        r == png_header(bytes@),
{
    let decoder = image::codecs::png::PngDecoder::new(bytes).ok()?;
    let (w, h) = decoder.dimensions();
    let format = match decoder.color_type() {
        image::ColorType::L8 => PixelFormat::L8,
        image::ColorType::La8 => PixelFormat::La8,
        image::ColorType::Rgb8 => PixelFormat::Rgb8,
        image::ColorType::Rgba8 => PixelFormat::Rgba8,
        image::ColorType::L16 => PixelFormat::L16,
        image::ColorType::La16 => PixelFormat::La16,
        image::ColorType::Rgb16 => PixelFormat::Rgb16,
        image::ColorType::Rgba16 => PixelFormat::Rgba16,
        _ => PixelFormat::Other,
    };
    Some((format, w, h))
}

/// Relies on image's `PngDecoder::new` and `read_image`: for an 8-bit RGB
/// image, its pixels, three bytes each (`total_bytes` of the decoder).
#[verifier::external_body]
fn read_png_rgb8(bytes: &[u8]) -> (r: Option<Vec<u8>>)
    requires
        png_header(bytes@) matches Some((PixelFormat::Rgb8, _, _)),
    ensures
        match png_pixels(bytes@) {
            None => r is None,
            Some(px) => r matches Some(v) && v@ == px
                && px.len() == 3 * png_area(bytes@),
        },
{
    let decoder = image::codecs::png::PngDecoder::new(bytes).ok()?;
    let mut pixels = vec![0u8; decoder.total_bytes() as usize];
    match decoder.read_image(pixels.as_mut_slice()) {
        Ok(()) => Some(pixels),
        Err(_) => None,
    }
}

/// Relies on image's `imageops::resize` with the Lanczos3 filter: a 16x16
/// image, and a plain copy where the image is 16x16 already.
#[verifier::external_body]
fn resize_16x16(img: RgbRaster) -> (r: Vec<u8>)
    requires
        img.width >= 1,
        img.height >= 1,
        img.pixels@.len() == 3 * (img.width * img.height),
    ensures
        r@ == lanczos3_16x16(img.width, img.height, img.pixels@),
        r@.len() == 3 * CELLS,
        img.width == SIDE && img.height == SIDE ==> r@ == img.pixels@,
{
    let buf = image::RgbImage::from_raw(img.width, img.height, img.pixels).unwrap();
    image::imageops::resize(&buf, 16, 16, image::imageops::FilterType::Lanczos3).into_raw()
}

/// Relies on image's `imageops::grayscale`: each pixel becomes
/// `(2126 r + 7152 g + 722 b) / 10000`, computed in `u32`.
#[verifier::external_body]
fn grayscale_16x16(rgb: Vec<u8>) -> (r: Vec<u8>)
    requires
        rgb@.len() == 3 * CELLS,
    ensures
        r@ == luma_of_rgb(rgb@),
{
    let buf = image::RgbImage::from_raw(16, 16, rgb).unwrap();
    image::imageops::grayscale(&buf).into_raw()
}

/// The fingerprint of a 16x16 interleaved RGB raster.
pub fn fingerprint_from_rgb16(rgb: Vec<u8>) -> (r: [u8; 32])
    requires
        rgb@.len() == 3 * CELLS,
    ensures
        r@ == fingerprint(luma_of_rgb(rgb@)),
{
    let gray = grayscale_16x16(rgb);
    fingerprint_from_luma(gray.as_slice())
}

/// The outcome that `calculate_perceptual_hash` owes for `bytes`.
pub open spec fn hash_outcome(bytes: Seq<u8>, r: Result<[u8; 32], HashError>) -> bool {
    match png_header(bytes) {
        None => r == Err::<[u8; 32], HashError>(HashError::Decode),
        Some((format, w, h)) => if is_indexed_png(bytes) || format != PixelFormat::Rgb8 {
            r == Err::<[u8; 32], HashError>(HashError::UnsupportedFormat)
        } else if w == 0 || h == 0 {
            r == Err::<[u8; 32], HashError>(HashError::Decode)
        } else {
            match png_pixels(bytes) {
                None => r == Err::<[u8; 32], HashError>(HashError::Decode),
                Some(px) => r matches Ok(fp) && lanczos3_16x16(w, h, px).len() == 3 * CELLS
                    && fp@ == fingerprint(luma_of_rgb(lanczos3_16x16(w, h, px))),
            }
        },
    }
}

/// The perceptual fingerprint of a PNG image, which must be 8-bit RGB
/// (not indexed, no alpha, not grayscale).
pub fn calculate_perceptual_hash(png: &[u8]) -> (r: Result<[u8; 32], HashError>)
    ensures
        hash_outcome(png@, r),
{
    let (format, width, height) = match read_png_header(png) {
        Some(header) => header,
        None => return Err(HashError::Decode),
    };
    if png.len() > COLOUR_TYPE_OFFSET && png[COLOUR_TYPE_OFFSET] == INDEXED_COLOUR {
        return Err(HashError::UnsupportedFormat);
    }
    if format != PixelFormat::Rgb8 {
        return Err(HashError::UnsupportedFormat);
    }
    if width == 0 || height == 0 {
        return Err(HashError::Decode);
    }
    let pixels = match read_png_rgb8(png) {
        Some(px) => px,
        None => return Err(HashError::Decode),
    };
    let small = resize_16x16(RgbRaster { width, height, pixels });
    Ok(fingerprint_from_rgb16(small))
}

/// Fingerprinting is deterministic: two outcomes for the same bytes agree.
pub proof fn lemma_hash_deterministic(bytes: Seq<u8>, r1: Result<[u8; 32], HashError>, r2: Result<[u8; 32], HashError>)
    requires
        hash_outcome(bytes, r1),
        hash_outcome(bytes, r2),
    ensures
        r1 is Ok <==> r2 is Ok,
        r1 matches Ok(a) ==> r2 matches Ok(b) && a@ == b@,
        r1 matches Err(e1) ==> r2 matches Err(e2) && e1 == e2,
{
}

/// Bytes that do not decode as an 8-bit RGB image, or that hold a palette
/// image, are rejected.
pub proof fn lemma_rejects_non_rgb8(bytes: Seq<u8>, r: Result<[u8; 32], HashError>)
    requires
        hash_outcome(bytes, r),
        is_indexed_png(bytes) || !(png_header(bytes) matches Some((PixelFormat::Rgb8, _, _))),
    ensures
        r is Err,
{
}

proof fn lemma_sum_below(s: Seq<u8>, a: nat)
    requires
        a >= 1,
        forall|i: int| 0 <= i < s.len() ==> (#[trigger] s[i]) < a,
    ensures
        sum_of(s) <= s.len() * (a - 1),
    decreases s.len(),
{
    if s.len() > 0 {
        lemma_sum_below(s.drop_last(), a);
        assert(s.last() <= a - 1);
        assert(sum_of(s) <= (s.len() - 1) * (a - 1) + (a - 1));
        assert((s.len() - 1) * (a - 1) + (a - 1) == s.len() * (a - 1)) by (nonlinear_arith);
    }
}

proof fn lemma_packed_positive(luma: Seq<u8>, avg: nat, start: int, n: nat, k: int)
    requires
        0 <= k < n,
        bit_of(luma, avg, start + k) == 1,
    ensures
        packed(luma, avg, start, n) >= 1,
    decreases n,
{
    if k < n - 1 {
        lemma_packed_positive(luma, avg, start, (n - 1) as nat, k);
    }
}

proof fn lemma_packed_bound(luma: Seq<u8>, avg: nat, start: int, n: nat)
    ensures
        packed(luma, avg, start, n) < bit_cap(n),
    decreases n,
{
    if n > 0 {
        lemma_packed_bound(luma, avg, start, (n - 1) as nat);
    }
}

/// Every fingerprint has a set bit: the brightest pixel is never darker than
/// the truncated mean.
pub proof fn lemma_fingerprint_has_set_bit(luma: Seq<u8>)
    requires
        luma.len() == CELLS,
    ensures
        exists|j: int| 0 <= j < FINGERPRINT_LEN && #[trigger] fingerprint(luma)[j] != 0,
{
    let avg = mean_of(luma);
    if forall|i: int| 0 <= i < luma.len() ==> (#[trigger] luma[i]) < avg {
        lemma_sum_below(luma, avg);
        assert(false) by (nonlinear_arith)
            requires
                sum_of(luma) <= 256 * (avg - 1),
                avg == sum_of(luma) / 256,
                avg >= 1,
        ;
    }
    let i = choose|i: int| 0 <= i < luma.len() && !((#[trigger] luma[i]) < avg);
    let j = i / 8;
    let k = i % 8;
    assert(8 * j + k == i);
    lemma_packed_positive(luma, avg, 8 * j, 8, k);
    lemma_packed_bound(luma, avg, 8 * j, 8);
    reveal_with_fuel(bit_cap, 9);
    assert(fingerprint(luma)[j] != 0);
}

/// Every fingerprint that `calculate_perceptual_hash` returns has a set bit.
pub proof fn lemma_hash_has_set_bit(bytes: Seq<u8>, r: Result<[u8; 32], HashError>)
    requires
        hash_outcome(bytes, r),
        r is Ok,
    ensures
        exists|j: int| 0 <= j < FINGERPRINT_LEN && #[trigger] r->Ok_0@[j] != 0,
{
    if let Some((_, w, h)) = png_header(bytes) {
        if let Some(px) = png_pixels(bytes) {
            let l = luma_of_rgb(lanczos3_16x16(w, h, px));
            lemma_fingerprint_has_set_bit(l);
            let j = choose|j: int| 0 <= j < FINGERPRINT_LEN && #[trigger] fingerprint(l)[j] != 0;
            assert(r->Ok_0@[j] != 0);
        }
    }
}

} // verus!
