//! Colors for attribute values, and the overlay of a grid on an image.

use vstd::prelude::*;
use crate::grid::{Grid, GridError, get_grid_value, resolve};

verus! {

/// Opacity of the color given to an attribute value.
pub const ALPHA: u32 = 128;

/// A pixel: red, green, blue and alpha channels.
#[derive(Clone, Copy, Debug, PartialEq, Eq, Structural)]
pub struct Rgba {
    pub r: u8,
    pub g: u8,
    pub b: u8,
    pub a: u8,
}

/// The color shown for a nonzero attribute value.
pub open spec fn color_of(value: u8) -> Rgba {
    let rv = value + 42;
    let gv = value + 69;
    let bv = value + 20;
    Rgba {
        r: ((rv * rv) % 255) as u8,
        g: ((gv * gv * gv) % 255) as u8,
        b: ((bv * bv * bv * bv) % 255) as u8,
        a: 128,
    }
}

/// The color shown for an attribute value.
pub fn to_color(value: u8) -> (r: Rgba)
    ensures
        r == color_of(value),
{
    let rv = value as u64 + 42;
    let gv = value as u64 + 69;
    let bv = value as u64 + 20;
    assert(rv * rv <= 297 * 297) by (nonlinear_arith)
        requires
            rv <= 297,
    ;
    let red = ((rv * rv) % 255) as u8;
    assert(gv * gv <= 324 * 324 && gv * gv * gv <= 324 * 324 * 324) by (nonlinear_arith)
        requires
            gv <= 324,
    ;
    let g2 = gv * gv;
    let green = ((g2 * gv) % 255) as u8;
    assert(bv * bv <= 275 * 275 && bv * bv * bv <= 275 * 275 * 275 && bv * bv * bv * bv <= 275
        * 275 * 275 * 275) by (nonlinear_arith)
        requires
            bv <= 275,
    ;
    let b2 = bv * bv;
    let b3 = b2 * bv;
    let blue = ((b3 * bv) % 255) as u8;
    Rgba { r: red, g: green, b: blue, a: ALPHA as u8 }
}

/// Alpha of a blend over a pixel of alpha `a2`.
pub open spec fn blend_alpha(a2: int) -> int {
    128 + (127 * a2) / 255
}

/// One channel of a blend of `c1` (alpha `a1`) over `c2` (alpha `a2`),
/// capped at 255.
pub open spec fn blend_channel(c1: int, a1: int, c2: int, a2: int) -> int {
    let v = (c1 * a1 + (a2 * c2 * (255 - a1)) / 255) / blend_alpha(a2);
    if v > 255 {
        255
    } else {
        v
    }
}

/// The blend of `p1` over `p2`.
pub open spec fn blend_of(p1: Rgba, p2: Rgba) -> Rgba {
    Rgba {
        r: blend_channel(p1.r as int, p1.a as int, p2.r as int, p2.a as int) as u8,
        g: blend_channel(p1.g as int, p1.a as int, p2.g as int, p2.a as int) as u8,
        b: blend_channel(p1.b as int, p1.a as int, p2.b as int, p2.a as int) as u8,
        a: blend_alpha(p2.a as int) as u8,
    }
}

/// One blended channel.
fn blend_one(c1: u8, a1: u8, c2: u8, a2: u8, alpha: u32) -> (r: u8)
    requires
        alpha == blend_alpha(a2 as int),
    ensures
        r == blend_channel(c1 as int, a1 as int, c2 as int, a2 as int),
{
    assert(c1 as u32 * a1 as u32 <= 255 * 255) by (nonlinear_arith)
        requires
            c1 <= 255,
            a1 <= 255,
    ;
    assert(a2 as u32 * c2 as u32 <= 255 * 255 && a2 as u32 * c2 as u32 * (255 - a1 as u32) <= 255
        * 255 * 255) by (nonlinear_arith)
        requires
            c2 <= 255,
            a2 <= 255,
            a1 <= 255,
    ;
    let under = a2 as u32 * c2 as u32;
    let v = (c1 as u32 * a1 as u32 + (under * (255 - a1 as u32)) / 255) / alpha;
    if v > 255 {
        255
    } else {
        v as u8
    }
}

/// Blends `pixel1` over `pixel2`.
pub fn blend_pixels(pixel1: &Rgba, pixel2: &Rgba) -> (r: Rgba)
    ensures
        r == blend_of(*pixel1, *pixel2),
{
    let alpha = ALPHA + (127 * pixel2.a as u32) / 255;
    Rgba {
        r: blend_one(pixel1.r, pixel1.a, pixel2.r, pixel2.a, alpha),
        g: blend_one(pixel1.g, pixel1.a, pixel2.g, pixel2.a, alpha),
        b: blend_one(pixel1.b, pixel1.a, pixel2.b, pixel2.a, alpha),
        a: alpha as u8,
    }
}

/// A fully transparent pixel.
pub open spec fn transparent() -> Rgba {
    Rgba { r: 0, g: 0, b: 0, a: 0 }
}

/// What the overlay shows at `(x, y)` over the image pixel `p`: the color of
/// the grid's value blended over `p` where the value is nonzero, else `p`.
pub open spec fn overlay_at(g: &Grid, p: Rgba, x: int, y: int) -> Rgba {
    match resolve(g, x, y) {
        Some(v) => if v > 0 {
            blend_of(color_of(v), p)
        } else {
            p
        },
        None => p,
    }
}

/// The image, given as rows of pixels, holds every pixel of the grid.
pub open spec fn image_covers(g: &Grid, rows: Seq<Vec<Rgba>>) -> bool {
    &&& g.info.height * 128 <= rows.len()
    &&& forall|y: int| 0 <= y < g.info.height * 128 ==> g.info.width * 128 <= #[trigger] rows[y]@.len()
}

/// Every pixel of the grid resolves to a value.
pub open spec fn resolves_everywhere(g: &Grid) -> bool {
    forall|x: int, y: int|
        0 <= x < g.info.width * 128 && 0 <= y < g.info.height * 128 ==> #[trigger] resolve(g, x, y) is Some
}

/// Draws the grid over an image given as rows of pixels: each pixel of the
/// grid whose value is nonzero gets that value's color blended over it; all
/// other pixels are kept.
///
/// Fails with `IndexOutOfRange` when the image does not hold the whole grid,
/// or when some pixel of the grid does not resolve.
pub fn render_overlay(grid_s: &Grid, base: &Vec<Vec<Rgba>>) -> (r: Result<Vec<Vec<Rgba>>, GridError>)
    ensures
        match r {
            Ok(out) => {
                &&& image_covers(grid_s, base@)
                &&& resolves_everywhere(grid_s)
                &&& out@.len() == base@.len()
                &&& forall|y: int| 0 <= y < base@.len() ==> (#[trigger] out@[y])@.len() == base@[y]@.len()
                &&& forall|y: int, x: int|
                    0 <= y < base@.len() && 0 <= x < base@[y]@.len() ==> (#[trigger] out@[y]@[x])
                        == overlay_at(grid_s, base@[y]@[x], x, y)
            },
            Err(e) => e == GridError::IndexOutOfRange && !(image_covers(grid_s, base@)
                && resolves_everywhere(grid_s)),
        },
{
    let gw = grid_s.info.width as usize * 128;
    let gh = grid_s.info.height as usize * 128;
    let rows = base.len();
    if rows < gh {
        return Err(GridError::IndexOutOfRange);
    }
    let mut out: Vec<Vec<Rgba>> = Vec::new();
    let mut y: usize = 0;
    while y < rows
        invariant
            rows == base@.len(),
            gw == grid_s.info.width * 128,
            gh == grid_s.info.height * 128,
            gh <= rows,
            y <= rows,
            out@.len() == y,
            forall|py: int| 0 <= py < y && py < gh ==> gw <= #[trigger] base@[py]@.len(),
            forall|px: int, py: int|
                0 <= px < gw && 0 <= py < y && py < gh ==> #[trigger] resolve(grid_s, px, py) is Some,
            forall|py: int| 0 <= py < y ==> (#[trigger] out@[py])@.len() == base@[py]@.len(),
            forall|py: int, px: int|
                0 <= py < y && 0 <= px < base@[py]@.len() ==> (#[trigger] out@[py]@[px])
                    == overlay_at(grid_s, base@[py]@[px], px, py),
        decreases rows - y,
    {
        let line = &base[y];
        let width = line.len();
        if y < gh && width < gw {
            return Err(GridError::IndexOutOfRange);
        }
        let mut row: Vec<Rgba> = Vec::new();
        let mut x: usize = 0;
        while x < width
            invariant
                rows == base@.len(),
                y < rows,
                line@ == base@[y as int]@,
                width == line@.len(),
                gw == grid_s.info.width * 128,
                gh == grid_s.info.height * 128,
                x <= width,
                row@.len() == x,
                forall|px: int| 0 <= px < x && px < gw && y < gh ==> #[trigger] resolve(grid_s, px, y as int) is Some,
                forall|px: int| 0 <= px < x ==> (#[trigger] row@[px]) == overlay_at(grid_s, line@[px], px, y as int),
            decreases width - x,
        {
            let p = line[x];
            if x < gw && y < gh {
                match get_grid_value(grid_s, x as u32, y as u32) {
                    Ok(v) => {
                        if v > 0 {
                            row.push(blend_pixels(&to_color(v), &p));
                        } else {
                            row.push(p);
                        }
                    },
                    Err(e) => {
                        return Err(e);
                    },
                }
            } else {
                assert(resolve(grid_s, x as int, y as int) is None);
                row.push(p);
            }
            x = x + 1;
        }
        out.push(row);
        y = y + 1;
    }
    Ok(out)
}

/// The pixel shown for one block value: its color where it is nonzero,
/// transparent otherwise.
pub open spec fn block_pixel(v: u8) -> Rgba {
    if v > 0 {
        color_of(v)
    } else {
        transparent()
    }
}

/// An 8×8 image of a block, row by row.
pub fn block_pixels(block: &[[u8; 8]; 8]) -> (r: Vec<Vec<Rgba>>)
    ensures
        r@.len() == 8,
        forall|y: int| 0 <= y < 8 ==> (#[trigger] r@[y])@.len() == 8,
        forall|y: int, x: int|
            0 <= y < 8 && 0 <= x < 8 ==> (#[trigger] r@[y]@[x]) == block_pixel(block@[y]@[x]),
{
    let mut out: Vec<Vec<Rgba>> = Vec::new();
    let mut y: usize = 0;
    while y < 8
        invariant
            y <= 8,
            out@.len() == y,
            forall|py: int| 0 <= py < y ==> (#[trigger] out@[py])@.len() == 8,
            forall|py: int, px: int|
                0 <= py < y && 0 <= px < 8 ==> (#[trigger] out@[py]@[px]) == block_pixel(block@[py]@[px]),
        decreases 8 - y,
    {
        let mut row: Vec<Rgba> = Vec::new();
        let mut x: usize = 0;
        while x < 8
            invariant
                y < 8,
                x <= 8,
                row@.len() == x,
                forall|px: int| 0 <= px < x ==> (#[trigger] row@[px]) == block_pixel(block@[y as int]@[px]),
            decreases 8 - x,
        {
            let v = block[y][x];
            if v > 0 {
                row.push(to_color(v));
            } else {
                row.push(Rgba { r: 0, g: 0, b: 0, a: 0 });
            }
            x = x + 1;
        }
        out.push(row);
        y = y + 1;
    }
    out
}

} // verus!
