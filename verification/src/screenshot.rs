//! The compositor's raw screenshot: checking the geometry it reports and
//! turning its 32-bit pixel rows into RGBA pixels composited onto white.
//!
//! Pixel formats are numbered as the compositor numbers them: 4 and 5 are
//! 32-bit colour stored blue-green-red-alpha (4 with no alpha), 6 the same
//! with premultiplied alpha; 16 and 17 are stored red-green-blue-alpha (16
//! with no alpha), 18 the same with premultiplied alpha.
use vstd::prelude::*;
use vstd::arithmetic::div_mod::lemma_fundamental_div_mod_converse;

verus! {

/// Why a screenshot could not be used.
#[derive(Debug, Clone, Copy, PartialEq, Eq, Structural)]
pub enum ScreenshotError {
    /// The reported width or height is zero (no active window).
    Empty,
    /// A row of `stride` bytes is shorter than the `need` bytes that `width`
    /// pixels take.
    StrideTooSmall { stride: u32, width: u32, need: usize },
    /// The pixel format is not one of the 32-bit formats.
    UnsupportedFormat(u32),
}

/// How many bytes a screenshot of the reported geometry takes: `stride`
/// bytes for each of `height` rows. Refused when the image is empty or a
/// row cannot hold `width` pixels of four bytes.
pub fn screenshot_byte_count(width: u32, height: u32, stride: u32) -> (r: Result<usize, ScreenshotError>)
    requires
        width * 4 <= usize::MAX,
        stride * height <= usize::MAX,
    ensures
        (width == 0 || height == 0) ==> r == Err::<usize, ScreenshotError>(ScreenshotError::Empty),
        (width != 0 && height != 0 && stride < width * 4) ==> r == Err::<usize, ScreenshotError>(
            ScreenshotError::StrideTooSmall { stride, width, need: (width * 4) as usize },
        ),
        (width != 0 && height != 0 && stride >= width * 4) ==> r == Ok::<usize, ScreenshotError>(
            (stride * height) as usize,
        ),
{
    if width == 0 || height == 0 {
        return Err(ScreenshotError::Empty);
    }
    let row_bytes = width as usize * 4;
    if (stride as usize) < row_bytes {
        return Err(ScreenshotError::StrideTooSmall { stride, width, need: row_bytes });
    }
    Ok(stride as usize * height as usize)
}

/// The 32-bit formats a screenshot may come in.
pub open spec fn is_supported_format(format: u32) -> bool {
    format == 4 || format == 5 || format == 6 || format == 16 || format == 17 || format == 18
}

/// Formats stored blue, green, red, alpha.
pub open spec fn is_bgra_format(format: u32) -> bool {
    format == 4 || format == 5 || format == 6
}

/// Formats whose colour is already scaled by alpha.
pub open spec fn is_premultiplied_format(format: u32) -> bool {
    format == 6 || format == 18
}

/// Formats with no alpha: every pixel is opaque.
pub open spec fn is_opaque_format(format: u32) -> bool {
    format == 4 || format == 16
}

/// Colour value `c` with alpha `a` composited onto white: unchanged when
/// opaque; for premultiplied colour the missing `255 - a` is added,
/// saturating at 255; for straight alpha `(c * a + 255 * (255 - a)) / 255`.
pub open spec fn over_white(c: u8, a: u8, format: u32) -> u8 {
    if is_opaque_format(format) {
        c
    } else if is_premultiplied_format(format) {
        if c + (255 - a) > 255 {
            255
        } else {
            (c + (255 - a)) as u8
        }
    } else {
        ((c * a + 255 * (255 - a)) / 255) as u8
    }
}

/// Byte `k` (red, green, blue, alpha) of the output pixel read from the four
/// source bytes at offset `off`: alpha is always 255.
pub open spec fn rgba_channel(raw: Seq<u8>, off: int, k: int, format: u32) -> u8 {
    let a: u8 = if is_opaque_format(format) {
        255
    } else {
        raw[off + 3]
    };
    if k == 3 {
        255
    } else {
        over_white(
            raw[off + if is_bgra_format(format) {
                2 - k
            } else {
                k
            }],
            a,
            format,
        )
    }
}

/// Byte `i` of the output: pixel `p = i / 4`, at column `p % width` of row
/// `p / width`, read from `row * stride + column * 4` in the source.
pub open spec fn rgba_byte(raw: Seq<u8>, width: int, stride: int, format: u32, i: int) -> u8 {
    let p = i / 4;
    rgba_channel(raw, (p / width) * stride + (p % width) * 4, i % 4, format)
}

/// The RGBA output of a `width` by `height` screenshot: four bytes per
/// pixel, rows top to bottom, pixels left to right.
pub open spec fn rgba_bytes(raw: Seq<u8>, width: int, height: int, stride: int, format: u32) -> Seq<u8> {
    Seq::new((width * height * 4) as nat, |i: int| rgba_byte(raw, width, stride, format, i))
}

proof fn lemma_pixel_index(w: int, y: int, x: int, k: int)
    requires
        0 < w,
        0 <= y,
        0 <= x < w,
        0 <= k < 4,
    ensures
        ((y * w + x) * 4 + k) / 4 == y * w + x,
        ((y * w + x) * 4 + k) % 4 == k,
        (y * w + x) / w == y,
        (y * w + x) % w == x,
{
    lemma_fundamental_div_mod_converse((y * w + x) * 4 + k, 4, y * w + x, k);
    lemma_fundamental_div_mod_converse(y * w + x, w, y, x);
}

/// One colour value composited onto white (see [`over_white`]).
fn composite(c: u8, a: u8, opaque: bool, premultiplied: bool, straight: bool) -> (r: u8)
    requires
        opaque || premultiplied || straight,
    ensures
        opaque ==> r == c,
        (!opaque && premultiplied) ==> r == (if c + (255 - a) > 255 {
            255
        } else {
            c + (255 - a)
        }),
        (!opaque && !premultiplied) ==> r == (c * a + 255 * (255 - a)) / 255,
{
    if opaque {
        c
    } else if premultiplied {
        let room: u8 = 255 - a;
        if c > 255 - room {
            255
        } else {
            c + room
        }
    } else {
        assert((c as int) * (a as int) <= 255 * 255) by (nonlinear_arith)
            requires
                c <= 255,
                a <= 255,
        ;
        let ca: u32 = c as u32 * a as u32;
        assert(ca <= 255 * a) by (nonlinear_arith)
            requires
                ca == c * a,
                c <= 255,
        ;
        let v: u32 = (ca + 255 * (255 - a as u32)) / 255;
        v as u8
    }
}

/// The compositor's raw rows as RGBA bytes composited onto white (see
/// [`rgba_bytes`]); refused when `format` is not a 32-bit format.
pub fn qimage_to_rgba(width: u32, height: u32, stride: u32, format: u32, raw: &[u8]) -> (r: Result<
    Vec<u8>,
    ScreenshotError,
>)
    requires
        height == 0 || (height - 1) * stride + width * 4 <= raw@.len(),
    ensures
        !is_supported_format(format) ==> r == Err::<Vec<u8>, ScreenshotError>(
            ScreenshotError::UnsupportedFormat(format),
        ),
        is_supported_format(format) ==> (r matches Ok(v) && v@ == rgba_bytes(
            raw@,
            width as int,
            height as int,
            stride as int,
            format,
        )),
{
    if !(format == 4 || format == 5 || format == 6 || format == 16 || format == 17 || format == 18) {
        return Err(ScreenshotError::UnsupportedFormat(format));
    }
    let bgra = format == 4 || format == 5 || format == 6;
    let premultiplied = format == 6 || format == 18;
    let opaque = format == 4 || format == 16;
    let w = width as usize;
    let h = height as usize;
    let st = stride as usize;
    let raw_len = raw.len();
    let mut out: Vec<u8> = Vec::new();
    let mut y: usize = 0;
    while y < h
        invariant
            is_supported_format(format),
            bgra == is_bgra_format(format),
            premultiplied == is_premultiplied_format(format),
            opaque == is_opaque_format(format),
            w == width,
            h == height,
            st == stride,
            h == 0 || (h - 1) * st + w * 4 <= raw@.len(),
            raw_len == raw@.len(),
            y <= h,
            out@.len() == y * w * 4,
            forall|i: int| 0 <= i < out@.len() ==> out@[i] == #[trigger] rgba_byte(raw@, w as int, st as int, format, i),
        decreases h - y,
    {
        let mut x: usize = 0;
        while x < w
            invariant
                is_supported_format(format),
                bgra == is_bgra_format(format),
                premultiplied == is_premultiplied_format(format),
                opaque == is_opaque_format(format),
                w == width,
                h == height,
                st == stride,
                (h - 1) * st + w * 4 <= raw@.len(),
                raw_len == raw@.len(),
                y < h,
                x <= w,
                out@.len() == (y * w + x) * 4,
                forall|i: int| 0 <= i < out@.len() ==> out@[i] == #[trigger] rgba_byte(raw@, w as int, st as int, format, i),
            decreases w - x,
        {
            assert(y * st + x * 4 + 4 <= raw@.len()) by (nonlinear_arith)
                requires
                    y < h,
                    x < w,
                    (h - 1) * st + w * 4 <= raw@.len(),
            ;
            assert(y * st <= (h - 1) * st) by (nonlinear_arith)
                requires
                    y < h,
            ;
            let off: usize = y * st + x * 4;
            let a: u8 = if opaque {
                255
            } else {
                raw[off + 3]
            };
            let (c0, c1, c2) = if bgra {
                (raw[off + 2], raw[off + 1], raw[off])
            } else {
                (raw[off], raw[off + 1], raw[off + 2])
            };
            let straight = !opaque && !premultiplied;
            let r0 = composite(c0, a, opaque, premultiplied, straight);
            let r1 = composite(c1, a, opaque, premultiplied, straight);
            let r2 = composite(c2, a, opaque, premultiplied, straight);
            let ghost start = out@.len() as int;
            let ghost prev = out@;
            out.push(r0);
            out.push(r1);
            out.push(r2);
            out.push(255);
            proof {
                let p = y * w + x;
                assert(start == p * 4);
                lemma_pixel_index(w as int, y as int, x as int, 0);
                lemma_pixel_index(w as int, y as int, x as int, 1);
                lemma_pixel_index(w as int, y as int, x as int, 2);
                lemma_pixel_index(w as int, y as int, x as int, 3);
                assert(out@[start] == rgba_byte(raw@, w as int, st as int, format, start));
                assert(out@[start + 1] == rgba_byte(raw@, w as int, st as int, format, start + 1));
                assert(out@[start + 2] == rgba_byte(raw@, w as int, st as int, format, start + 2));
                assert(out@[start + 3] == rgba_byte(raw@, w as int, st as int, format, start + 3));
                assert forall|i: int| 0 <= i < out@.len() implies out@[i] == #[trigger] rgba_byte(
                    raw@,
                    w as int,
                    st as int,
                    format,
                    i,
                ) by {
                    if i < start {
                        assert(out@[i] == prev[i]);
                    } else {
                        assert(i == start || i == start + 1 || i == start + 2 || i == start + 3);
                    }
                }
                assert(out@.len() == (y * w + x + 1) * 4) by (nonlinear_arith)
                    requires
                        out@.len() == start + 4,
                        start == (y * w + x) * 4,
                ;
            }
            x += 1;
        }
        proof {
            assert(out@.len() == (y + 1) * w * 4) by (nonlinear_arith)
                requires
                    out@.len() == (y * w + w) * 4,
            ;
        }
        y += 1;
    }
    proof {
        assert(out@.len() == (width as int) * (height as int) * 4) by (nonlinear_arith)
            requires
                out@.len() == y * w * 4,
                y == h,
                w == width,
                h == height,
        ;
        assert(out@ =~= rgba_bytes(raw@, width as int, height as int, stride as int, format));
    }
    Ok(out)
}

/// The converted screenshot is opaque: every fourth byte, the alpha of a
/// pixel, is 255 whatever the source held.
pub proof fn law_rgba_output_is_opaque(raw: Seq<u8>, width: int, height: int, stride: int, format: u32, i: int)
    requires
        0 <= i < width * height * 4,
        i % 4 == 3,
    ensures
        rgba_bytes(raw, width, height, stride, format)[i] == 255,
{
}

/// Compositing an opaque colour onto white leaves it unchanged.
proof fn lemma_over_white_opaque(c: u8, format: u32)
    ensures
        over_white(c, 255, format) == c,
{
    assert((c * 255 + 255 * (255 - 255)) / 255 == c) by (nonlinear_arith);
}

/// The byte order of the formats, for an opaque source pixel (alpha 255):
/// the red-green-blue-alpha formats 16, 17 and 18 copy the pixel's first
/// three bytes in order, the blue-green-red-alpha formats 4, 5 and 6 swap its
/// first and third bytes; the output alpha is 255. The pixel at column `x`
/// of row `y` starts at byte `y * stride + x * 4` of the source and at byte
/// `(y * width + x) * 4` of the output.
pub proof fn law_opaque_pixels_keep_their_colour(
    raw: Seq<u8>,
    width: int,
    height: int,
    stride: int,
    format: u32,
    y: int,
    x: int,
)
    requires
        0 <= y < height,
        0 <= x < width,
        0 <= stride,
        y * stride + x * 4 + 3 < raw.len(),
        raw[y * stride + x * 4 + 3] == 255,
    ensures
        ({
            let out = rgba_bytes(raw, width, height, stride, format);
            let o = (y * width + x) * 4;
            let src = y * stride + x * 4;
            &&& (format == 16 || format == 17 || format == 18) ==> out[o] == raw[src] && out[o + 1] == raw[src
                + 1] && out[o + 2] == raw[src + 2] && out[o + 3] == 255
            &&& (format == 4 || format == 5 || format == 6) ==> out[o] == raw[src + 2] && out[o + 1] == raw[src
                + 1] && out[o + 2] == raw[src] && out[o + 3] == 255
        }),
{
    let o = (y * width + x) * 4;
    assert(o + 3 < width * height * 4) by (nonlinear_arith)
        requires
            0 <= y < height,
            0 <= x < width,
            o == (y * width + x) * 4,
    ;
    assert(o >= 0) by (nonlinear_arith)
        requires
            0 <= y,
            0 <= x,
            0 <= width,
            o == (y * width + x) * 4,
    ;
    lemma_pixel_index(width, y, x, 0);
    lemma_pixel_index(width, y, x, 1);
    lemma_pixel_index(width, y, x, 2);
    lemma_pixel_index(width, y, x, 3);
    let src = y * stride + x * 4;
    lemma_over_white_opaque(raw[src], format);
    lemma_over_white_opaque(raw[src + 1], format);
    lemma_over_white_opaque(raw[src + 2], format);
    let out = rgba_bytes(raw, width, height, stride, format);
    assert(out[o] == rgba_channel(raw, src, 0, format));
    assert(out[o + 1] == rgba_channel(raw, src, 1, format));
    assert(out[o + 2] == rgba_channel(raw, src, 2, format));
    assert(out[o + 3] == rgba_channel(raw, src, 3, format));
}

} // verus!
