//! The pixel ceiling, and the one conversion every render does.
//!
//! `max_pixels` is checked before the bitmap is allocated, never after: the whole value of
//! the check is that the allocation does not happen. The default ceiling is a caller ceiling
//! and is far too loose to be a device one.

use vstd::prelude::*;

use crate::error::{internal, invalid_argument, Error, Result, Stage};
use crate::limits::Limits;

verus! {

/// Bytes per pixel in a raster: RGBA, eight bits a channel.
pub const BYTES_PER_PIXEL: u64 = 4u64;

/// The same number as a `usize`.
pub const BYTES_PER_PIXEL_USIZE: usize = 4usize;

/// Check a requested raster against `max_pixels`, and return the pixel count.
///
/// # Errors
///
/// - `InvalidArgument`: either dimension is zero. A zero-pixel raster is not a small raster;
///   it is a request that cannot be satisfied.
/// - `LimitExceeded` for `max_pixels` at [`Stage::Pixels`]: `width * height` exceeds the
///   ceiling, or the buffer of four bytes a pixel would not fit in a `usize` on this target,
///   where what is allowed is what the target can address, in pixels.
/// - `Internal`: the byte count does not fit in a `u64`.
pub fn check_pixels(width: u32, height: u32, limits: &Limits) -> (r: Result<u64>)
    ensures
        (width == 0 || height == 0) <==> (r is Err && r->Err_0 is InvalidArgument),
        width > 0 && height > 0 && width * height > limits.max_pixels ==> r is Err
            && r->Err_0 == (Error::LimitExceeded {
                limit: "max_pixels",
                stage: Stage::Pixels,
                requested: (width * height) as u64,
                allowed: limits.max_pixels,
            }),
        width > 0 && height > 0 && width * height <= limits.max_pixels && width * height * 4 > u64::MAX
            ==> r is Err && r->Err_0 is Internal,
        width > 0 && height > 0 && width * height <= limits.max_pixels && width * height * 4 <= u64::MAX
            && width * height * 4 > usize::MAX ==> r is Err && r->Err_0 == (Error::LimitExceeded {
                limit: "max_pixels",
                stage: Stage::Pixels,
                requested: (width * height) as u64,
                allowed: (usize::MAX / 4) as u64,
            }),
        r is Ok <==> width > 0 && height > 0 && width * height <= limits.max_pixels
            && width * height * 4 <= usize::MAX,
        r is Ok ==> r->Ok_0 == width * height,
{
    if width == 0 || height == 0 {
        return Err(invalid_argument("a render needs a non-zero width and height"));
    }
    let w = width as u64;
    let h = height as u64;
    assert(w * h <= 0xffff_ffffu64 * 0xffff_ffffu64) by (nonlinear_arith)
        requires
            w <= 0xffff_ffffu64,
            h <= 0xffff_ffffu64,
    ;
    let pixels = w * h;
    Limits::check(Stage::Pixels, "max_pixels", pixels, limits.max_pixels)?;
    if pixels > u64::MAX / BYTES_PER_PIXEL {
        return Err(internal("raster byte count does not fit in u64"));
    }
    let bytes = pixels * BYTES_PER_PIXEL;
    if bytes > usize::MAX as u64 {
        let addressable = usize::MAX as u64;
        return Err(Error::LimitExceeded {
            limit: "max_pixels",
            stage: Stage::Pixels,
            requested: pixels,
            allowed: addressable / BYTES_PER_PIXEL,
        });
    }
    Ok(pixels)
}

/// Where channel `c` of a packed RGBA pixel comes from in a BGRA one.
pub open spec fn from_bgra(c: int) -> int {
    if c == 0 { 2 } else if c == 2 { 0 } else { c }
}

/// `out` is `src`, `height` rows of `width` BGRA pixels each `stride` bytes apart, packed as
/// RGBA with no padding.
pub open spec fn packed_rgba(src: Seq<u8>, stride: int, width: int, height: int, out: Seq<u8>) -> bool {
    &&& out.len() == width * height * 4
    &&& forall|row: int, x: int, c: int| 0 <= row < height && 0 <= x < width && 0 <= c < 4
        ==> #[trigger] out[(row * width + x) * 4 + c] == src[row * stride + x * 4 + from_bgra(c)]
}

proof fn lemma_row_bounds(row: int, width: int, height: int, stride: int, row_bytes: int)
    requires
        0 <= row < height,
        0 <= width,
        row_bytes == width * 4,
        row_bytes <= stride,
    ensures
        row * stride + row_bytes <= height * stride,
        0 <= row * width,
        row * width + width == (row + 1) * width,
        (row + 1) * width <= height * width,
        0 <= row * stride,
{
    assert(row * stride + stride == (row + 1) * stride) by (nonlinear_arith);
    assert((row + 1) * stride <= height * stride) by (nonlinear_arith)
        requires
            row + 1 <= height,
            0 <= stride,
    ;
    assert(0 <= row * width) by (nonlinear_arith)
        requires
            0 <= row,
            0 <= width,
    ;
    assert(row * width + width == (row + 1) * width) by (nonlinear_arith);
    assert((row + 1) * width <= height * width) by (nonlinear_arith)
        requires
            row + 1 <= height,
            0 <= width,
    ;
    assert(0 <= row * stride) by (nonlinear_arith)
        requires
            0 <= row,
            0 <= stride,
    ;
}

/// Copy a BGRA bitmap, whose rows are `stride` bytes apart, into a packed RGBA buffer.
///
/// `stride` may exceed `width * 4`: the engine pads rows, so this walks row by row.
///
/// # Errors
///
/// `Internal` if a row of `width` pixels does not fit in a `usize`, `stride` is smaller than a
/// row, `stride * height` does not fit in a `usize`, or `src` is shorter than `stride * height`.
/// Each means the engine contradicted itself.
pub fn bgra_to_rgba(src: &[u8], stride: usize, width: u32, height: u32) -> (r: Result<Vec<u8>>)
    ensures
        r is Ok <==> width * 4 <= usize::MAX && width * 4 <= stride && stride * height <= usize::MAX
            && stride * height <= src@.len(),
        r is Err ==> r->Err_0 is Internal,
        r is Ok ==> packed_rgba(src@, stride as int, width as int, height as int, r->Ok_0@),
{
    let width = width as usize;
    let height = height as usize;
    if width > usize::MAX / BYTES_PER_PIXEL_USIZE {
        return Err(internal("raster row does not fit in usize"));
    }
    let row_bytes = width * BYTES_PER_PIXEL_USIZE;
    if stride < row_bytes {
        return Err(internal("the engine reported a stride narrower than one row"));
    }
    if height > 0 && stride > usize::MAX / height {
        proof {
            assert(stride * height > usize::MAX) by (nonlinear_arith)
                requires
                    height > 0,
                    stride > usize::MAX / height,
            ;
        }
        return Err(internal("raster does not fit in usize"));
    }
    proof {
        if height > 0 {
            assert(stride * height <= usize::MAX) by (nonlinear_arith)
                requires
                    height > 0,
                    stride <= usize::MAX / height,
            ;
        }
    }
    let needed = stride * height;
    if src.len() < needed {
        return Err(internal("the engine returned fewer bytes than its own stride implies"));
    }
    let ghost s = src@;
    let ghost w = width as int;
    let ghost h = height as int;
    let ghost st = stride as int;
    let mut out: Vec<u8> = Vec::new();
    let mut row: usize = 0;
    while row < height
        invariant
            s == src@,
            w == width as int,
            h == height as int,
            st == stride as int,
            row_bytes == width * 4,
            row_bytes <= stride,
            needed == stride * height,
            needed <= src@.len(),
            row <= height,
            out@.len() == row * w * 4,
            forall|r2: int, x: int, c: int| 0 <= r2 < row && 0 <= x < w && 0 <= c < 4
                ==> #[trigger] out@[(r2 * w + x) * 4 + c] == s[r2 * st + x * 4 + from_bgra(c)],
        decreases height - row,
    {
        proof {
            lemma_row_bounds(row as int, w, h, st, row_bytes as int);
        }
        let start = row * stride;
        let mut x: usize = 0;
        while x < width
            invariant
                s == src@,
                w == width as int,
                h == height as int,
                st == stride as int,
                row_bytes == width * 4,
                row_bytes <= stride,
                needed == stride * height,
                needed <= src@.len(),
                row < height,
                start == row * stride,
                start + row_bytes <= needed,
                0 <= row * w,
                x <= width,
                out@.len() == (row * w + x) * 4,
                forall|r2: int, x2: int, c: int| 0 <= r2 < row && 0 <= x2 < w && 0 <= c < 4
                    ==> #[trigger] out@[(r2 * w + x2) * 4 + c] == s[r2 * st + x2 * 4 + from_bgra(c)],
                forall|x2: int, c: int| 0 <= x2 < x && 0 <= c < 4
                    ==> #[trigger] out@[(row * w + x2) * 4 + c] == s[row * st + x2 * 4 + from_bgra(c)],
            decreases width - x,
        {
            let at = start + x * BYTES_PER_PIXEL_USIZE;
            let b = src[at];
            let g = src[at + 1];
            let red = src[at + 2];
            let a = src[at + 3];
            let ghost before = out@;
            out.push(red);
            out.push(g);
            out.push(b);
            out.push(a);
            proof {
                let base = (row * w + x) * 4;
                assert(out@.len() == base + 4);
                assert forall|r2: int, x2: int, c: int| 0 <= r2 < row && 0 <= x2 < w && 0 <= c < 4
                    implies #[trigger] out@[(r2 * w + x2) * 4 + c] == s[r2 * st + x2 * 4 + from_bgra(c)] by {
                    assert(r2 * w + x2 < row * w) by (nonlinear_arith)
                        requires
                            0 <= r2 < row,
                            0 <= x2 < w,
                    ;
                    assert(out@[(r2 * w + x2) * 4 + c] == before[(r2 * w + x2) * 4 + c]);
                }
                assert forall|x2: int, c: int| 0 <= x2 < x + 1 && 0 <= c < 4
                    implies #[trigger] out@[(row * w + x2) * 4 + c] == s[row * st + x2 * 4 + from_bgra(c)] by {
                    if x2 < x {
                        assert(out@[(row * w + x2) * 4 + c] == before[(row * w + x2) * 4 + c]);
                    } else {
                        assert((row * w + x2) * 4 + c == base + c);
                    }
                }
            }
            x += 1;
        }
        proof {
            assert((row * w + w) * 4 == (row + 1) * w * 4) by (nonlinear_arith);
            assert forall|r2: int, x2: int, c: int| 0 <= r2 < row + 1 && 0 <= x2 < w && 0 <= c < 4
                implies #[trigger] out@[(r2 * w + x2) * 4 + c] == s[r2 * st + x2 * 4 + from_bgra(c)] by {
            }
        }
        row += 1;
    }
    proof {
        assert(row * w * 4 == w * h * 4) by (nonlinear_arith)
            requires
                row == h,
        ;
    }
    Ok(out)
}

} // verus!
