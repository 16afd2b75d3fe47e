//! Spatial projection of a point to a pixel index of the canvas.
//!
//! Coordinates are fixed-point degrees: integers counting units of 1e-7
//! degree, the resolution at which the edit history stores positions.
use vstd::prelude::*;

verus! {

/// A geographic rectangle, in units of 1e-7 degree.
#[derive(Debug, Clone, Copy, PartialEq, Eq, Structural)]
pub struct BBox {
    pub left: i32,
    pub bottom: i32,
    pub right: i32,
    pub top: i32,
}

/// The two map projections.
#[derive(Debug, Clone, Copy, PartialEq, Eq, Structural)]
pub enum ProjectionKind {
    Ortho,
    Equirect,
}

/// The point lies strictly inside the box; a point on an edge does not.
pub open spec fn strictly_inside(b: BBox, lat: int, lon: int) -> bool {
    b.bottom < lat < b.top && b.left < lon < b.right
}

/// Column of a point inside the box on a canvas `width` pixels wide.
pub open spec fn equirect_x(b: BBox, width: int, lon: int) -> int {
    ((lon - b.left) * width) / (b.right - b.left)
}

/// Row of a point inside the box on a canvas `height` pixels high; row 0
/// is the top edge.
pub open spec fn equirect_y(b: BBox, height: int, lat: int) -> int {
    ((b.top - lat) * height) / (b.top - b.bottom)
}

/// The pixel index of a point under the equirectangular projection of
/// `b` onto a `width` x `height` canvas, or `None` outside the box.
pub open spec fn equirect_index(b: BBox, width: int, height: int, lat: int, lon: int) -> Option<
    int,
> {
    if strictly_inside(b, lat, lon) {
        Some(equirect_y(b, height, lat) * width + equirect_x(b, width, lon))
    } else {
        None
    }
}

proof fn lemma_scaled_below(d: int, span: int, size: int)
    requires
        0 < d < span,
        size >= 0,
    ensures
        0 <= (d * size) / span < size || size == 0,
        0 <= (d * size) / span <= size,
{
    assert(0 <= d * size <= span * size) by (nonlinear_arith)
        requires
            0 < d < span,
            size >= 0,
    ;
    assert(d * size < span * size || size == 0) by (nonlinear_arith)
        requires
            0 < d < span,
            size >= 0,
    ;
    vstd::arithmetic::div_mod::lemma_div_pos_is_pos(d * size, span);
    vstd::arithmetic::div_mod::lemma_fundamental_div_mod(d * size, span);
    vstd::arithmetic::div_mod::lemma_mod_pos_bound(d * size, span);
    let q = (d * size) / span;
    assert(q < size || size == 0) by (nonlinear_arith)
        requires
            d * size == span * q + (d * size) % span,
            0 <= (d * size) % span,
            d * size < span * size || size == 0,
            span > 0,
    ;
    assert(q <= size) by (nonlinear_arith)
        requires
            d * size == span * q + (d * size) % span,
            0 <= (d * size) % span,
            d * size <= span * size,
            span > 0,
    ;
}

/// A point on an edge of the box, or beyond it, is outside the canvas; a
/// point strictly inside lands on a pixel of the canvas.
pub proof fn lemma_equirect_boundary(b: BBox, width: u32, height: u32, lat: i32, lon: i32)
    requires
        width > 0,
        height > 0,
    ensures
        (lat == b.top || lat == b.bottom || lon == b.left || lon == b.right) ==> equirect_index(
            b,
            width as int,
            height as int,
            lat as int,
            lon as int,
        ) is None,
        strictly_inside(b, lat as int, lon as int) ==> (equirect_index(
            b,
            width as int,
            height as int,
            lat as int,
            lon as int,
        ) matches Some(i) && 0 <= i < width * height),
{
    if strictly_inside(b, lat as int, lon as int) {
        lemma_scaled_below(lon - b.left, b.right - b.left, width as int);
        lemma_scaled_below(b.top - lat, b.top - b.bottom, height as int);
        let x = equirect_x(b, width as int, lon as int);
        let y = equirect_y(b, height as int, lat as int);
        assert(0 <= y * width + x < width * height) by (nonlinear_arith)
            requires
                0 <= x < width,
                0 <= y < height,
        ;
    }
}

/// The equirectangular projection: the pixel of a point strictly inside
/// `bbox`, or `None` for a point outside it or on its edge.
pub fn latlon_to_pixel_index(lat: i32, lon: i32, width: u32, height: u32, bbox: &BBox) -> (r:
    Option<u32>)
    requires
        width > 0,
        height > 0,
        width * height <= u32::MAX,
    ensures
        r matches Some(i) ==> equirect_index(*bbox, width as int, height as int, lat as int, lon as int)
            == Some(i as int) && i < width * height,
        r is None ==> equirect_index(*bbox, width as int, height as int, lat as int, lon as int) is None,
{
    if lat >= bbox.top || lat <= bbox.bottom || lon >= bbox.right || lon <= bbox.left {
        return None;
    }
    let lon0: u64 = (lon as i64 - bbox.left as i64) as u64;
    let lat0: u64 = (bbox.top as i64 - lat as i64) as u64;
    let span_x: u64 = (bbox.right as i64 - bbox.left as i64) as u64;
    let span_y: u64 = (bbox.top as i64 - bbox.bottom as i64) as u64;
    proof {
        assert(lon0 * width <= 0x1_0000_0000u64 * 0x1_0000_0000u64 - 1) by (nonlinear_arith)
            requires
                lon0 < 0x1_0000_0000u64,
                width < 0x1_0000_0000u64,
        ;
        assert(lat0 * height <= 0x1_0000_0000u64 * 0x1_0000_0000u64 - 1) by (nonlinear_arith)
            requires
                lat0 < 0x1_0000_0000u64,
                height < 0x1_0000_0000u64,
        ;
        lemma_scaled_below(lon0 as int, span_x as int, width as int);
        lemma_scaled_below(lat0 as int, span_y as int, height as int);
    }
    let x: u64 = (lon0 * width as u64) / span_x;
    let y: u64 = (lat0 * height as u64) / span_y;
    proof {
        assert(y * width + x < width * height) by (nonlinear_arith)
            requires
                x < width,
                y < height,
        ;
    }
    Some((y * width as u64 + x) as u32)
}

/// Width of the equirectangular canvas of `height` rows whose aspect is that
/// of `bbox`: `floor(height * bbox width / bbox height)`. `None` for a box
/// without area or a width beyond 32 bits.
pub fn canvas_width(height: u32, bbox: &BBox) -> (r: Option<u32>)
    ensures
        r matches Some(w) ==> bbox.left < bbox.right && bbox.bottom < bbox.top && w == (height
            * (bbox.right - bbox.left)) / (bbox.top - bbox.bottom),
        r is None ==> bbox.left >= bbox.right || bbox.bottom >= bbox.top || (height * (bbox.right
            - bbox.left)) / (bbox.top - bbox.bottom) > u32::MAX,
{
    if bbox.left >= bbox.right || bbox.bottom >= bbox.top {
        return None;
    }
    let span_x: u64 = (bbox.right as i64 - bbox.left as i64) as u64;
    let span_y: u64 = (bbox.top as i64 - bbox.bottom as i64) as u64;
    proof {
        assert(height * span_x <= 0x1_0000_0000u64 * 0x1_0000_0000u64 - 1) by (nonlinear_arith)
            requires
                span_x < 0x1_0000_0000u64,
                height < 0x1_0000_0000u64,
        ;
    }
    let w: u64 = (height as u64 * span_x) / span_y;
    if w > u32::MAX as u64 {
        None
    } else {
        Some(w as u32)
    }
}

/// The pixel index of a position `(x, y)` on a square canvas of side
/// `size`: `y * size + x`, or `None` where there is no position or the
/// index passes 32 bits.
pub fn ortho_pixel_index(xy: Option<(u32, u32)>, size: u32) -> (r: Option<u32>)
    ensures
        r == (match xy {
            None => None,
            Some((x, y)) => if y * size + x > u32::MAX {
                None
            } else {
                Some((y * size + x) as u32)
            },
        }),
{
    match xy {
        None => None,
        Some((x, y)) => {
            proof {
                assert(y * size + x <= 0xFFFF_FFFF_FFFF_FFFFu64) by (nonlinear_arith)
                    requires
                        y <= 0xFFFF_FFFFu64,
                        x <= 0xFFFF_FFFFu64,
                        size <= 0xFFFF_FFFFu64,
                ;
            }
            let i: u64 = y as u64 * size as u64 + x as u64;
            if i > u32::MAX as u64 {
                None
            } else {
                Some(i as u32)
            }
        },
    }
}

} // verus!
