//! Downscale planning for the OCR max-dimension guardrail.
//!
//! Tesseract re-decodes the image file itself, so oversized images make OCR
//! slow and memory-hungry out of proportion to recognition quality. When an
//! image exceeds the configured maximum dimension, the viewer feeds tesseract
//! a downscaled copy instead and maps the resulting word boxes back into
//! original image space with [`upscale_bboxes`], so everything downstream
//! (cache entries, the spatial index, selection) only ever sees
//! original-space coordinates.
//!
//! Scale factors are exact ratios of whole numbers (`num / den`).
use vstd::prelude::*;

use crate::geometry::Rect;
use crate::ocr::models::OcrResult;

verus! {

/// Default for the `[ocr] max_dimension` setting. `0` disables the guardrail.
pub const DEFAULT_MAX_OCR_DIMENSION: u32 = 4000;

/// A decision to OCR a downscaled copy instead of the original.
#[derive(Debug, Clone, Copy, PartialEq, Eq, Structural)]
pub struct DownscalePlan {
    pub target_w: u32,
    pub target_h: u32,
    /// The factor `original / target` (> 1) is `factor_num / factor_den`.
    /// Multiply target-space lengths by it to get back to original space.
    pub factor_num: u32,
    pub factor_den: u32,
}

/// `a / d` rounded to the nearest integer, halves upwards.
pub open spec fn round_div(a: int, d: int) -> int {
    (2 * a + d) / (2 * d)
}

/// Target length of a side of length `dim` when the longer side `largest`
/// becomes `max_dim`: `dim / (largest / max_dim)` rounded, at least 1.
pub open spec fn scaled_side(dim: int, largest: int, max_dim: int) -> int {
    let t = round_div(dim * max_dim, largest);
    if t < 1 {
        1
    } else {
        t
    }
}

/// What [`plan_downscale`] decides.
pub open spec fn plan_spec(width: int, height: int, max_dim: int) -> Option<DownscalePlan> {
    let largest = if width >= height {
        width
    } else {
        height
    };
    if max_dim == 0 || width == 0 || height == 0 || largest <= max_dim {
        None
    } else {
        Some(
            DownscalePlan {
                target_w: scaled_side(width, largest, max_dim) as u32,
                target_h: scaled_side(height, largest, max_dim) as u32,
                factor_num: largest as u32,
                factor_den: max_dim as u32,
            },
        )
    }
}

proof fn lemma_scaled_side_bounds(dim: int, largest: int, max_dim: int)
    requires
        1 <= dim <= largest,
        1 <= max_dim < largest,
    ensures
        1 <= scaled_side(dim, largest, max_dim) <= max_dim,
        dim == largest ==> scaled_side(dim, largest, max_dim) == max_dim,
{
    let t = round_div(dim * max_dim, largest);
    assert(2 * (dim * max_dim) + largest <= 2 * largest * max_dim + largest) by (nonlinear_arith)
        requires
            dim <= largest,
            max_dim >= 1,
    ;
    assert((2 * largest * max_dim + largest) / (2 * largest) == max_dim) by (nonlinear_arith)
        requires
            largest >= 1,
    {
        vstd::arithmetic::div_mod::lemma_fundamental_div_mod_converse(
            2 * largest * max_dim + largest,
            2 * largest,
            max_dim,
            largest,
        );
    }
    vstd::arithmetic::div_mod::lemma_div_is_ordered(
        2 * (dim * max_dim) + largest,
        2 * largest * max_dim + largest,
        2 * largest,
    );
    if dim == largest {
        assert(2 * (dim * max_dim) + largest == 2 * largest * max_dim + largest) by (nonlinear_arith)
            requires
                dim == largest,
        ;
    }
}

/// Decide whether an image of `width` x `height` needs downscaling to fit
/// `max_dimension`. Returns `None` when it already fits (or the guardrail is
/// disabled with `max_dimension == 0`); the aspect ratio is preserved, the
/// longer side becomes exactly `max_dimension` and no side falls below 1.
pub fn plan_downscale(width: u32, height: u32, max_dimension: u32) -> (r: Option<DownscalePlan>)
    ensures
        r == plan_spec(width as int, height as int, max_dimension as int),
        r matches Some(p) ==> {
            &&& 1 <= p.target_w <= max_dimension
            &&& 1 <= p.target_h <= max_dimension
            &&& (width >= height ==> p.target_w == max_dimension)
            &&& (height >= width ==> p.target_h == max_dimension)
            &&& p.factor_num > p.factor_den >= 1
        },
{
    if max_dimension == 0 || width == 0 || height == 0 {
        return None;
    }
    let largest = if width >= height {
        width
    } else {
        height
    };
    if largest <= max_dimension {
        return None;
    }
    proof {
        lemma_scaled_side_bounds(width as int, largest as int, max_dimension as int);
        lemma_scaled_side_bounds(height as int, largest as int, max_dimension as int);
    }
    let target_w = scale_side(width, largest, max_dimension);
    let target_h = scale_side(height, largest, max_dimension);
    Some(
        DownscalePlan {
            target_w,
            target_h,
            factor_num: largest,
            factor_den: max_dimension,
        },
    )
}

fn scale_side(dim: u32, largest: u32, max_dim: u32) -> (t: u32)
    requires
        1 <= dim <= largest,
        1 <= max_dim < largest,
    ensures
        t == scaled_side(dim as int, largest as int, max_dim as int),
{
    proof {
        lemma_scaled_side_bounds(dim as int, largest as int, max_dim as int);
        assert(dim as int * max_dim as int <= 0xffff_ffff * 0xffff_ffff) by (nonlinear_arith)
            requires
                dim <= 0xffff_ffff,
                max_dim <= 0xffff_ffff,
                dim >= 0,
                max_dim >= 0,
        ;
    }
    let prod = dim as u128 * max_dim as u128;
    let t = (2 * prod + largest as u128) / (2 * largest as u128);
    if t < 1 {
        1
    } else {
        t as u32
    }
}

/// Whether box `b` can be scaled exactly by `nx / dx` horizontally and
/// `ny / dy` vertically: the scaled coordinates stay within `i64` and the
/// scaled units within `u32`.
pub open spec fn scalable(b: Rect, nx: int, dx: int, ny: int, dy: int) -> bool {
    &&& i64::MIN <= b.x * nx <= i64::MAX
    &&& i64::MIN <= b.w * nx <= i64::MAX
    &&& i64::MIN <= b.y * ny <= i64::MAX
    &&& i64::MIN <= b.h * ny <= i64::MAX
    &&& b.den_x * dx <= u32::MAX
    &&& b.den_y * dy <= u32::MAX
}

/// Box `b` scaled exactly: `x` and `w` by `nx / dx`, `y` and `h` by
/// `ny / dy` (the numerators take the multipliers, the units the divisors).
pub open spec fn upscaled_box(b: Rect, nx: int, dx: int, ny: int, dy: int) -> Rect {
    Rect {
        x: (b.x * nx) as i64,
        y: (b.y * ny) as i64,
        w: (b.w * nx) as i64,
        h: (b.h * ny) as i64,
        den_x: (b.den_x * dx) as u32,
        den_y: (b.den_y * dy) as u32,
    }
}

/// Whether two rectangles stand for the same box (equal as fractions).
pub open spec fn same_box(a: Rect, b: Rect) -> bool {
    &&& a.x * b.den_x == b.x * a.den_x
    &&& a.w * b.den_x == b.w * a.den_x
    &&& a.y * b.den_y == b.y * a.den_y
    &&& a.h * b.den_y == b.h * a.den_y
}

/// Round trip: scaling a box by `nx / dx` and `ny / dy` and then by the
/// inverse factors gives back the same box.
pub proof fn upscale_then_inverse_is_identity(b: Rect, nx: u32, dx: u32, ny: u32, dy: u32)
    requires
        scalable(b, nx as int, dx as int, ny as int, dy as int),
        scalable(
            upscaled_box(b, nx as int, dx as int, ny as int, dy as int),
            dx as int,
            nx as int,
            dy as int,
            ny as int,
        ),
    ensures
        same_box(
            upscaled_box(
                upscaled_box(b, nx as int, dx as int, ny as int, dy as int),
                dx as int,
                nx as int,
                dy as int,
                ny as int,
            ),
            b,
        ),
{
    let (x, w, y, h) = (b.x as int, b.w as int, b.y as int, b.h as int);
    let (ux, uy) = (b.den_x as int, b.den_y as int);
    let (nx, dx, ny, dy) = (nx as int, dx as int, ny as int, dy as int);
    assert(x * nx * dx * ux == x * (ux * dx * nx)) by (nonlinear_arith);
    assert(w * nx * dx * ux == w * (ux * dx * nx)) by (nonlinear_arith);
    assert(y * ny * dy * uy == y * (uy * dy * ny)) by (nonlinear_arith);
    assert(h * ny * dy * uy == h * (uy * dy * ny)) by (nonlinear_arith);
}

/// `a * b` for an `i64` and a `u32`, when it fits in `i64`.
fn checked_scale(a: i64, b: u32) -> (r: Option<i64>)
    ensures
        r matches Some(v) ==> v == a * b,
        r is None <==> !(i64::MIN <= a * b <= i64::MAX),
{
    proof {
        assert(-0x8000_0000_0000_0000 * 0xffff_ffff <= a as int * b as int <= 0x7fff_ffff_ffff_ffff
            * 0xffff_ffff) by (nonlinear_arith)
            requires
                i64::MIN <= a <= i64::MAX,
                0 <= b <= 0xffff_ffff,
        ;
    }
    let p = a as i128 * b as i128;
    if p < i64::MIN as i128 || p > i64::MAX as i128 {
        None
    } else {
        Some(p as i64)
    }
}

/// `a * b` for two `u32`s, when it fits in `u32`.
fn checked_unit(a: u32, b: u32) -> (r: Option<u32>)
    ensures
        r matches Some(v) ==> v == a * b,
        r is None <==> a * b > u32::MAX,
{
    proof {
        assert(0 <= a as int * b as int <= 0xffff_ffff * 0xffff_ffff) by (nonlinear_arith)
            requires
                0 <= a <= 0xffff_ffff,
                0 <= b <= 0xffff_ffff,
        ;
    }
    let p = a as u64 * b as u64;
    if p > u32::MAX as u64 {
        None
    } else {
        Some(p as u32)
    }
}

/// Box `b` scaled exactly, or `None` when the result cannot be represented.
fn scale_box(b: Rect, nx: u32, dx: u32, ny: u32, dy: u32) -> (r: Option<Rect>)
    ensures
        r is Some <==> scalable(b, nx as int, dx as int, ny as int, dy as int),
        r matches Some(u) ==> u == upscaled_box(b, nx as int, dx as int, ny as int, dy as int),
{
    let x = match checked_scale(b.x, nx) {
        Some(v) => v,
        None => {
            return None;
        },
    };
    let w = match checked_scale(b.w, nx) {
        Some(v) => v,
        None => {
            return None;
        },
    };
    let y = match checked_scale(b.y, ny) {
        Some(v) => v,
        None => {
            return None;
        },
    };
    let h = match checked_scale(b.h, ny) {
        Some(v) => v,
        None => {
            return None;
        },
    };
    let den_x = match checked_unit(b.den_x, dx) {
        Some(v) => v,
        None => {
            return None;
        },
    };
    let den_y = match checked_unit(b.den_y, dy) {
        Some(v) => v,
        None => {
            return None;
        },
    };
    Some(Rect { x, y, w, h, den_x, den_y })
}

/// Map word bounding boxes recognized in downscaled space back to original
/// image space, exactly: `x` and `w` are multiplied by
/// `factor_x_num / factor_x_den`, `y` and `h` by `factor_y_num / factor_y_den`.
/// Run this *before* the result is cached or indexed, so a cache hit is
/// indistinguishable from a full-resolution parse.
///
/// Factors are per axis (`original / actual target`, from the dimensions of
/// the image actually fed to tesseract): target sizes are rounded
/// independently per axis, so one uniform factor would drift boxes on the
/// minor axis.
///
/// Returns whether the boxes were scaled. When some scaled box would not be
/// representable (a coordinate beyond `i64` or a unit beyond `u32`), nothing
/// is changed and `false` is returned.
pub fn upscale_bboxes(
    result: &mut OcrResult,
    factor_x_num: u32,
    factor_x_den: u32,
    factor_y_num: u32,
    factor_y_den: u32,
) -> (scaled: bool)
    requires
        factor_x_den >= 1,
        factor_y_den >= 1,
    ensures
        scaled == forall|i: int|
            0 <= i < old(result).words@.len() ==> scalable(
                #[trigger] old(result).words@[i].bbox,
                factor_x_num as int,
                factor_x_den as int,
                factor_y_num as int,
                factor_y_den as int,
            ),
        !scaled ==> final(result).words@ == old(result).words@,
        final(result).words@.len() == old(result).words@.len(),
        forall|i: int|
            0 <= i < old(result).words@.len() ==> {
                let a = #[trigger] final(result).words@[i]@;
                let b = old(result).words@[i]@;
                &&& a.text == b.text
                &&& a.confidence == b.confidence
                &&& a.order == b.order
                &&& a.bbox == if scaled {
                    upscaled_box(
                        b.bbox,
                        factor_x_num as int,
                        factor_x_den as int,
                        factor_y_num as int,
                        factor_y_den as int,
                    )
                } else {
                    b.bbox
                }
            },
{
    let n = result.words.len();
    let mut k: usize = 0;
    while k < n
        invariant
            0 <= k <= n,
            n == result.words@.len(),
            result.words@ == old(result).words@,
            forall|i: int|
                0 <= i < k ==> scalable(
                    #[trigger] old(result).words@[i].bbox,
                    factor_x_num as int,
                    factor_x_den as int,
                    factor_y_num as int,
                    factor_y_den as int,
                ),
        decreases n - k,
    {
        if scale_box(result.words[k].bbox, factor_x_num, factor_x_den, factor_y_num, factor_y_den).is_none() {
            return false;
        }
        k = k + 1;
    }
    let mut i: usize = 0;
    while i < n
        invariant
            0 <= i <= n,
            n == old(result).words@.len(),
            result.words@.len() == n,
            forall|k: int|
                0 <= k < n ==> scalable(
                    #[trigger] old(result).words@[k].bbox,
                    factor_x_num as int,
                    factor_x_den as int,
                    factor_y_num as int,
                    factor_y_den as int,
                ),
            forall|k: int|
                0 <= k < n ==> {
                    let a = #[trigger] result.words@[k]@;
                    let b = old(result).words@[k]@;
                    &&& a.text == b.text
                    &&& a.confidence == b.confidence
                    &&& a.order == b.order
                    &&& a.bbox == if k < i {
                        upscaled_box(
                            b.bbox,
                            factor_x_num as int,
                            factor_x_den as int,
                            factor_y_num as int,
                            factor_y_den as int,
                        )
                    } else {
                        b.bbox
                    }
                },
        decreases n - i,
    {
        assert(result.words@[i as int]@.order == old(result).words@[i as int]@.order);
        assert(scalable(
            old(result).words@[i as int].bbox,
            factor_x_num as int,
            factor_x_den as int,
            factor_y_num as int,
            factor_y_den as int,
        ));
        let b = result.words[i].bbox;
        let nb = match scale_box(b, factor_x_num, factor_x_den, factor_y_num, factor_y_den) {
            Some(u) => u,
            None => b,
        };
        let ghost before = result.words@;
        result.words[i].bbox = nb;
        proof {
            assert(result.words@[i as int].text == before[i as int].text);
            assert(result.words@[i as int].bbox == nb);
            assert forall|k: int| 0 <= k < n implies {
                let a = #[trigger] result.words@[k]@;
                let b = old(result).words@[k]@;
                &&& a.text == b.text
                &&& a.confidence == b.confidence
                &&& a.order == b.order
                &&& a.bbox == if k < i + 1 {
                    upscaled_box(
                        b.bbox,
                        factor_x_num as int,
                        factor_x_den as int,
                        factor_y_num as int,
                        factor_y_den as int,
                    )
                } else {
                    b.bbox
                }
            } by {
                if k != i {
                    assert(result.words@[k] == before[k]);
                }
            }
        }
        i = i + 1;
    }
    true
}

} // verus!
