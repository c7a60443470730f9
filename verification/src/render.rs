//! Raster composition: filling footprints, blitting sprite pixels and
//! drawing diagnostic borders into a row-major RGBA canvas. The canvas is a
//! plain pixel vector; decoding inputs and encoding the finished atlas are
//! the caller's business.

use vstd::arithmetic::div_mod::{lemma_fundamental_div_mod, lemma_fundamental_div_mod_converse};
use vstd::prelude::*;

use crate::spatial_tree::Region;

verus! {

/// One RGBA pixel.
#[derive(Clone, Copy, Debug, PartialEq, Eq, Structural)]
pub struct Rgba {
    pub r: u8,
    pub g: u8,
    pub b: u8,
    pub a: u8,
}

impl Rgba {
    pub fn new(r: u8, g: u8, b: u8, a: u8) -> (c: Rgba)
        ensures
            c == (Rgba { r, g, b, a }),
    {
        Rgba { r, g, b, a }
    }
}

/// The canvas after filling `region` with `color`: pixel `k` of a row-major
/// canvas with row stride `width` lies at column `k % width` and row
/// `k / width`, and is replaced exactly when `region` covers that spot.
pub open spec fn painted(canvas: Seq<Rgba>, width: int, region: Region, color: Rgba) -> Seq<
    Rgba,
> {
    Seq::new(
        canvas.len(),
        |k: int|
            if width > 0 && region.covers(k % width, k / width) {
                color
            } else {
                canvas[k]
            },
    )
}

/// Row-major index arithmetic: the pixel at column `x` of row `y` is index
/// `y * width + x`, and that index decomposes back into exactly that column
/// and row.
proof fn lemma_row_major(k: int, x: int, y: int, width: int)
    requires
        width > 0,
        0 <= x < width,
        0 <= y,
        k == y * width + x,
    ensures
        k / width == y,
        k % width == x,
{
    lemma_fundamental_div_mod_converse(k, width, y, x);
}

/// Fill `region` of a row-major canvas with `color`. Every covered pixel
/// becomes `color`; no other pixel changes. A zero row stride admits only a
/// degenerate region, and paints nothing.
pub fn draw_rectangle(color: Rgba, region: &Region, width: u32, pixels: &mut Vec<Rgba>)
    requires
        region.left + region.width <= width,
        region.top + region.height <= u32::MAX,
        width * (region.top + region.height) <= old(pixels)@.len(),
    ensures
        final(pixels)@ == painted(old(pixels)@, width as int, *region, color),
{
    let ghost target = painted(old(pixels)@, width as int, *region, color);
    let ghost len = old(pixels)@.len();
    proof {
        vstd::std_specs::vec::axiom_spec_len(pixels);
    }
    let mut y: u32 = region.top;
    while y < region.top + region.height
        invariant
            region.left + region.width <= width,
            region.top + region.height <= u32::MAX,
            width * (region.top + region.height) <= len,
            region.top <= y <= region.top + region.height,
            len <= usize::MAX,
            old(pixels)@.len() == len,
            pixels@.len() == len,
            forall|k: int|
                0 <= k < len ==> pixels@[k] == (if region.covers(k % (width as int), k / (
                width as int)) && k / (width as int) < y {
                    color
                } else {
                    old(pixels)@[k]
                }),
        decreases region.top + region.height - y,
    {
        proof {
            assert((y + 1) * width <= (region.top + region.height) * width) by (nonlinear_arith)
                requires
                    y + 1 <= region.top + region.height,
                    width >= 0,
            ;
            assert((region.top + region.height) * width == width * (region.top + region.height))
                by (nonlinear_arith);
            assert(y * width <= (y + 1) * width) by (nonlinear_arith)
                requires
                    width >= 0,
                    y >= 0,
            ;
        }
        let row_base: usize = (y as usize) * (width as usize);
        let mut x: u32 = region.left;
        while x < region.left + region.width
            invariant
                region.left + region.width <= width,
                region.left <= x <= region.left + region.width,
                region.top <= y < region.top + region.height,
                row_base == y * width,
                (y + 1) * width <= len,
                len <= usize::MAX,
                old(pixels)@.len() == len,
                pixels@.len() == len,
                forall|k: int|
                    0 <= k < len ==> pixels@[k] == (if region.covers(k % (width as int), k / (
                    width as int)) && (k / (width as int) < y || (k / (width as int) == y && k % (
                    width as int) < x)) {
                        color
                    } else {
                        old(pixels)@[k]
                    }),
            decreases region.left + region.width - x,
        {
            proof {
                assert(y * width + x < (y + 1) * width) by (nonlinear_arith)
                    requires
                        x < width,
                ;
            }
            let idx: usize = row_base + (x as usize);
            let ghost prev = pixels@;
            pixels[idx] = color;
            proof {
                assert(pixels@ == prev.update(idx as int, color));
                lemma_row_major(idx as int, x as int, y as int, width as int);
                assert forall|k: int| 0 <= k < len implies pixels@[k] == (if region.covers(
                    k % (width as int),
                    k / (width as int),
                ) && (k / (width as int) < y || (k / (width as int) == y && k % (width as int) < x
                    + 1)) {
                    color
                } else {
                    old(pixels)@[k]
                }) by {
                    let wi = width as int;
                    if k == idx as int {
                        assert(idx as int % wi == x as int && idx as int / wi == y as int);
                        assert(region.covers(x as int, y as int));
                        assert(pixels@[k] == color);
                    } else {
                        assert(pixels@[k] == prev[k]);
                        lemma_fundamental_div_mod(k, wi);
                        if k % wi == x as int && k / wi == y as int {
                            assert(k == wi * (k / wi) + k % wi);
                            assert(wi * (y as int) == (y as int) * wi) by (nonlinear_arith);
                            assert(false);
                        }
                        assert(prev[k] == (if region.covers(k % wi, k / wi) && (k / wi < y || (k
                            / wi == y && k % wi < x)) {
                            color
                        } else {
                            old(pixels)@[k]
                        }));
                    }
                }
            }
            x = x + 1;
        }
        y = y + 1;
    }
    proof {
        assert forall|k: int| 0 <= k < len implies pixels@[k] == target[k] by {
            if region.covers(k % (width as int), k / (width as int)) {
                assert(k / (width as int) < y);
            }
        }
        assert(pixels@ =~= target);
    }
}

/// The one-pixel strip along the top edge of `region`.
pub open spec fn border_top(region: Region) -> Region {
    Region { top: region.top, left: region.left, width: region.width, height: 1u32 }
}

/// The one-pixel strip one row below `region` (at `region.bottom()`).
pub open spec fn border_bottom(region: Region) -> Region {
    Region {
        top: (region.top + region.height) as u32,
        left: region.left,
        width: region.width,
        height: 1u32,
    }
}

/// The one-pixel strip along the left edge of `region`.
pub open spec fn border_left(region: Region) -> Region {
    Region { top: region.top, left: region.left, width: 1u32, height: region.height }
}

/// The one-pixel strip one column right of `region` (at `region.right()`).
pub open spec fn border_right(region: Region) -> Region {
    Region {
        top: region.top,
        left: (region.left + region.width) as u32,
        width: 1u32,
        height: region.height,
    }
}

/// Draw a one-pixel border around `region`: its top row, the row just past
/// its bottom edge, its left column and the column just past its right edge.
pub fn draw_border(color: Rgba, region: &Region, width: u32, pixels: &mut Vec<Rgba>)
    requires
        region.left + region.width + 1 <= width,
        region.top + region.height + 1 <= u32::MAX,
        width * (region.top + region.height + 1) <= old(pixels)@.len(),
    ensures
        final(pixels)@ == painted(
            painted(
                painted(
                    painted(old(pixels)@, width as int, border_top(*region), color),
                    width as int,
                    border_bottom(*region),
                    color,
                ),
                width as int,
                border_left(*region),
                color,
            ),
            width as int,
            border_right(*region),
            color,
        ),
{
    proof {
        assert(width * (region.top + 1) <= width * (region.top + region.height + 1))
            by (nonlinear_arith)
            requires
                width > 0,
                region.top >= 0,
                region.height >= 0,
        ;
        assert(width * (region.top + region.height) <= width * (region.top + region.height + 1))
            by (nonlinear_arith)
            requires
                width > 0,
                region.top >= 0,
                region.height >= 0,
        ;
    }
    let top_strip = Region { top: region.top, left: region.left, width: region.width, height: 1 };
    draw_rectangle(color, &top_strip, width, pixels);
    let bottom_strip = Region {
        top: region.top + region.height,
        left: region.left,
        width: region.width,
        height: 1,
    };
    draw_rectangle(color, &bottom_strip, width, pixels);
    let left_strip = Region { top: region.top, left: region.left, width: 1, height: region.height };
    draw_rectangle(color, &left_strip, width, pixels);
    let right_strip = Region {
        top: region.top,
        left: region.left + region.width,
        width: 1,
        height: region.height,
    };
    draw_rectangle(color, &right_strip, width, pixels);
}

/// The canvas after copying a sprite's pixels over `region`: the covered
/// spot at column `x`, row `y` takes the sprite pixel at column
/// `x - region.left`, row `y - region.top` of a sprite whose rows are
/// `region.width` wide.
pub open spec fn blitted(canvas: Seq<Rgba>, width: int, region: Region, sprite: Seq<Rgba>) -> Seq<
    Rgba,
> {
    Seq::new(
        canvas.len(),
        |k: int|
            if width > 0 && region.covers(k % width, k / width) {
                sprite[(k / width - region.top) * region.width + (k % width - region.left)]
            } else {
                canvas[k]
            },
    )
}

/// Copy a sprite (row-major, exactly filling `region`) onto the canvas.
/// Every pixel covered by `region` takes the corresponding sprite pixel; no
/// other pixel changes. The row stride must be positive: a sprite needs
/// rows to land in.
pub fn blit_sprite(sprite: &Vec<Rgba>, region: &Region, width: u32, pixels: &mut Vec<Rgba>)
    requires
        width > 0,
        region.left + region.width <= width,
        region.top + region.height <= u32::MAX,
        width * (region.top + region.height) <= old(pixels)@.len(),
        sprite@.len() == region.width * region.height,
    ensures
        final(pixels)@ == blitted(old(pixels)@, width as int, *region, sprite@),
{
    let ghost target = blitted(old(pixels)@, width as int, *region, sprite@);
    let ghost len = old(pixels)@.len();
    proof {
        vstd::std_specs::vec::axiom_spec_len(pixels);
        vstd::std_specs::vec::axiom_spec_len(sprite);
    }
    let mut y: u32 = region.top;
    while y < region.top + region.height
        invariant
            width > 0,
            region.left + region.width <= width,
            region.top + region.height <= u32::MAX,
            width * (region.top + region.height) <= len,
            sprite@.len() == region.width * region.height,
            sprite@.len() <= usize::MAX,
            target == blitted(old(pixels)@, width as int, *region, sprite@),
            region.top <= y <= region.top + region.height,
            len <= usize::MAX,
            old(pixels)@.len() == len,
            pixels@.len() == len,
            forall|k: int|
                0 <= k < len ==> pixels@[k] == (if region.covers(k % (width as int), k / (
                width as int)) && k / (width as int) < y {
                    target[k]
                } else {
                    old(pixels)@[k]
                }),
        decreases region.top + region.height - y,
    {
        proof {
            assert((y + 1) * width <= (region.top + region.height) * width) by (nonlinear_arith)
                requires
                    y + 1 <= region.top + region.height,
                    width > 0,
            ;
            assert((region.top + region.height) * width == width * (region.top + region.height))
                by (nonlinear_arith);
            assert(y * width <= (y + 1) * width) by (nonlinear_arith)
                requires
                    width > 0,
                    y >= 0,
            ;
            assert((y - region.top) * region.width + region.width <= region.height
                * region.width) by (nonlinear_arith)
                requires
                    region.width >= 0,
                    y - region.top + 1 <= region.height,
            ;
            assert(region.height * region.width == region.width * region.height)
                by (nonlinear_arith);
        }
        let row_base: usize = (y as usize) * (width as usize);
        let sprite_row_base: usize = ((y - region.top) as usize) * (region.width as usize);
        let mut x: u32 = region.left;
        while x < region.left + region.width
            invariant
                width > 0,
                region.left + region.width <= width,
                sprite@.len() == region.width * region.height,
                sprite@.len() <= usize::MAX,
                target == blitted(old(pixels)@, width as int, *region, sprite@),
                region.left <= x <= region.left + region.width,
                region.top <= y < region.top + region.height,
                row_base == y * width,
                sprite_row_base == (y - region.top) * region.width,
                sprite_row_base + region.width <= sprite@.len(),
                (y + 1) * width <= len,
                len <= usize::MAX,
                old(pixels)@.len() == len,
                pixels@.len() == len,
                forall|k: int|
                    0 <= k < len ==> pixels@[k] == (if region.covers(k % (width as int), k / (
                    width as int)) && (k / (width as int) < y || (k / (width as int) == y && k % (
                    width as int) < x)) {
                        target[k]
                    } else {
                        old(pixels)@[k]
                    }),
            decreases region.left + region.width - x,
        {
            proof {
                assert(y * width + x < (y + 1) * width) by (nonlinear_arith)
                    requires
                        x < width,
                ;
            }
            let idx: usize = row_base + (x as usize);
            let sidx: usize = sprite_row_base + ((x - region.left) as usize);
            let pixel = sprite[sidx];
            let ghost prev = pixels@;
            pixels[idx] = pixel;
            proof {
                assert(pixels@ == prev.update(idx as int, pixel));
                lemma_row_major(idx as int, x as int, y as int, width as int);
                assert(region.covers(x as int, y as int));
                assert(target[idx as int] == pixel);
                assert forall|k: int| 0 <= k < len implies pixels@[k] == (if region.covers(
                    k % (width as int),
                    k / (width as int),
                ) && (k / (width as int) < y || (k / (width as int) == y && k % (width as int) < x
                    + 1)) {
                    target[k]
                } else {
                    old(pixels)@[k]
                }) by {
                    let wi = width as int;
                    if k == idx as int {
                        assert(region.covers(x as int, y as int));
                    } else {
                        assert(pixels@[k] == prev[k]);
                        lemma_fundamental_div_mod(k, wi);
                        if k % wi == x as int && k / wi == y as int {
                            assert(k == wi * (k / wi) + k % wi);
                            assert(wi * (y as int) == (y as int) * wi) by (nonlinear_arith);
                            assert(false);
                        }
                    }
                }
            }
            x = x + 1;
        }
        y = y + 1;
    }
    proof {
        assert forall|k: int| 0 <= k < len implies pixels@[k] == target[k] by {
            if region.covers(k % (width as int), k / (width as int)) {
                assert(k / (width as int) < y);
            }
        }
        assert(pixels@ =~= target);
    }
}

/// The diagnostic palette cycled through when filling node footprints.
pub open spec fn palette(i: int) -> Rgba {
    if i == 0 {
        Rgba { r: 255, g: 0, b: 0, a: 255 }
    } else if i == 1 {
        Rgba { r: 0, g: 255, b: 0, a: 255 }
    } else if i == 2 {
        Rgba { r: 0, g: 0, b: 255, a: 255 }
    } else if i == 3 {
        Rgba { r: 255, g: 0, b: 255, a: 255 }
    } else if i == 4 {
        Rgba { r: 0, g: 255, b: 255, a: 255 }
    } else if i == 5 {
        Rgba { r: 0, g: 0, b: 0, a: 255 }
    } else if i == 6 {
        Rgba { r: 255, g: 127, b: 0, a: 255 }
    } else if i == 7 {
        Rgba { r: 127, g: 0, b: 0, a: 255 }
    } else if i == 8 {
        Rgba { r: 0, g: 127, b: 0, a: 255 }
    } else if i == 9 {
        Rgba { r: 0, g: 0, b: 127, a: 255 }
    } else {
        Rgba { r: 127, g: 0, b: 127, a: 255 }
    }
}

/// The `i`-th color of the cycling diagnostic palette.
pub fn palette_color(i: usize) -> (c: Rgba)
    ensures
        c == palette(i as int % 11),
{
    match i % 11 {
        0 => Rgba::new(255, 0, 0, 255),
        1 => Rgba::new(0, 255, 0, 255),
        2 => Rgba::new(0, 0, 255, 255),
        3 => Rgba::new(255, 0, 255, 255),
        4 => Rgba::new(0, 255, 255, 255),
        5 => Rgba::new(0, 0, 0, 255),
        6 => Rgba::new(255, 127, 0, 255),
        7 => Rgba::new(127, 0, 0, 255),
        8 => Rgba::new(0, 127, 0, 255),
        9 => Rgba::new(0, 0, 127, 255),
        _ => Rgba::new(127, 0, 127, 255),
    }
}

/// The footprint rectangle of a placement: the node's top-left corner
/// extended by the stored item size.
pub open spec fn inner_rect(entry: (Region, (u32, u32))) -> Region {
    Region { top: entry.0.top, left: entry.0.left, width: entry.1.0, height: entry.1.1 }
}

/// A white canvas of `len` pixels.
pub open spec fn white_canvas(len: nat) -> Seq<Rgba> {
    Seq::new(len, |k: int| Rgba { r: 255, g: 255, b: 255, a: 255 })
}

/// The canvas after filling, over white, the footprint of each placement in
/// order, cycling through the palette.
pub open spec fn composed_nodes(placements: Seq<(Region, (u32, u32))>, width: int, len: nat) -> Seq<
    Rgba,
>
    decreases placements.len(),
{
    if placements.len() == 0 {
        white_canvas(len)
    } else {
        painted(
            composed_nodes(placements.drop_last(), width, len),
            width,
            inner_rect(placements.last()),
            palette((placements.len() - 1) as int % 11),
        )
    }
}

/// Render the occupied placements of an atlas: a white `width` by `height`
/// canvas with each placement's footprint filled in the next palette color,
/// in the order given (normally the tree's traversal order).
pub fn render_nodes(placements: &Vec<(Region, (u32, u32))>, width: u32, height: u32) -> (r: Vec<
    Rgba,
>)
    requires
        width * height <= u32::MAX,
        forall|i: int|
            0 <= i < placements@.len() ==> ((#[trigger] placements@[i]).0.left
                + placements@[i].1.0 <= width && placements@[i].0.top + placements@[i].1.1
                <= height),
    ensures
        r@ == composed_nodes(placements@, width as int, (width * height) as nat),
        r@.len() == width * height,
{
    let ghost total = (width * height) as nat;
    let n: usize = (width as usize) * (height as usize);
    let mut pixels: Vec<Rgba> = Vec::new();
    let mut f: usize = 0;
    while f < n
        invariant
            n == width * height,
            0 <= f <= n,
            pixels@.len() == f,
            forall|k: int| 0 <= k < f ==> pixels@[k] == (Rgba { r: 255, g: 255, b: 255, a: 255 }),
        decreases n - f,
    {
        pixels.push(Rgba { r: 255, g: 255, b: 255, a: 255 });
        f = f + 1;
    }
    proof {
        assert(pixels@ =~= white_canvas(total));
        assert(placements@.subrange(0, 0) =~= Seq::<(Region, (u32, u32))>::empty());
        assert(composed_nodes(placements@.subrange(0, 0), width as int, total) =~= white_canvas(
            total,
        ));
    }
    let mut i: usize = 0;
    while i < placements.len()
        invariant
            total == width * height,
            forall|k: int|
                0 <= k < placements@.len() ==> ((#[trigger] placements@[k]).0.left
                    + placements@[k].1.0 <= width && placements@[k].0.top + placements@[k].1.1
                    <= height),
            0 <= i <= placements@.len(),
            pixels@.len() == total,
            pixels@ == composed_nodes(placements@.subrange(0, i as int), width as int, total),
        decreases placements@.len() - i,
    {
        let entry = placements[i];
        let inner = Region { top: entry.0.top, left: entry.0.left, width: entry.1.0, height: entry.1.1 };
        let color = palette_color(i);
        proof {
            assert(width * (inner.top + inner.height) <= width * height) by (nonlinear_arith)
                requires
                    width >= 0,
                    0 <= inner.top + inner.height <= height,
            ;
        }
        draw_rectangle(color, &inner, width, &mut pixels);
        proof {
            let sub1 = placements@.subrange(0, i + 1);
            assert(sub1.drop_last() =~= placements@.subrange(0, i as int));
            assert(sub1.last() == placements@[i as int]);
            assert(inner_rect(sub1.last()) == inner);
        }
        i = i + 1;
    }
    proof {
        assert(placements@.subrange(0, placements@.len() as int) =~= placements@);
    }
    pixels
}

/// The canvas after rendering each node entry in order over white: nodes
/// with a sprite have it blitted over their footprint, and every node gets
/// a one-pixel magenta border around its region.
pub open spec fn composed_sprites(
    entries: Seq<(Region, (u32, u32))>,
    sprites: Seq<Option<Vec<Rgba>>>,
    stride: int,
    len: nat,
) -> Seq<Rgba>
    decreases entries.len(),
{
    if entries.len() == 0 {
        white_canvas(len)
    } else {
        let prev = composed_sprites(entries.drop_last(), sprites, stride, len);
        let e = entries.last();
        let border = Rgba { r: 255, g: 0, b: 255, a: 255 };
        let base = if sprites[entries.len() - 1] is Some {
            blitted(prev, stride, inner_rect(e), sprites[entries.len() - 1].unwrap()@)
        } else {
            prev
        };
        painted(
            painted(
                painted(
                    painted(base, stride, border_top(e.0), border),
                    stride,
                    border_bottom(e.0),
                    border,
                ),
                stride,
                border_left(e.0),
                border,
            ),
            stride,
            border_right(e.0),
            border,
        )
    }
}

/// Compose a sprite sheet: over a white canvas one pixel wider and taller
/// than the atlas (so the far borders have room), blit each entry's sprite
/// pixels over its footprint and draw a magenta border around its region,
/// in the order given. `entries` carries each node's region and footprint;
/// `sprites` carries, index for index, the pixels of the entry's occupant
/// (row-major, footprint-sized), or nothing for a free node.
pub fn render_sprites(
    entries: &Vec<(Region, (u32, u32))>,
    sprites: &Vec<Option<Vec<Rgba>>>,
    width: u32,
    height: u32,
) -> (r: Vec<Rgba>)
    requires
        width < u32::MAX,
        height < u32::MAX,
        (width + 1) * (height + 1) <= u32::MAX,
        entries@.len() == sprites@.len(),
        forall|i: int|
            0 <= i < entries@.len() ==> {
                let e = #[trigger] entries@[i];
                &&& e.0.left + e.0.width <= width
                &&& e.0.top + e.0.height <= height
                &&& e.1.0 <= e.0.width
                &&& e.1.1 <= e.0.height
                &&& (sprites@[i] is Some ==> sprites@[i].unwrap()@.len() == e.1.0 * e.1.1)
            },
    ensures
        r@ == composed_sprites(
            entries@,
            sprites@,
            (width + 1) as int,
            ((width + 1) * (height + 1)) as nat,
        ),
        r@.len() == (width + 1) * (height + 1),
{
    let stride: u32 = width + 1;
    let ghost total = ((width + 1) * (height + 1)) as nat;
    proof {
        assert(stride * (height + 1) == (width + 1) * (height + 1)) by (nonlinear_arith)
            requires
                stride == width + 1,
        ;
    }
    let n: usize = (stride as usize) * ((height + 1) as usize);
    let mut pixels: Vec<Rgba> = Vec::new();
    let mut f: usize = 0;
    while f < n
        invariant
            0 <= f <= n,
            pixels@.len() == f,
            forall|k: int| 0 <= k < f ==> pixels@[k] == (Rgba { r: 255, g: 255, b: 255, a: 255 }),
        decreases n - f,
    {
        pixels.push(Rgba { r: 255, g: 255, b: 255, a: 255 });
        f = f + 1;
    }
    proof {
        assert(pixels@ =~= white_canvas(total));
        assert(entries@.subrange(0, 0) =~= Seq::<(Region, (u32, u32))>::empty());
        assert(composed_sprites(entries@.subrange(0, 0), sprites@, stride as int, total)
            =~= white_canvas(total));
    }
    let mut i: usize = 0;
    while i < entries.len()
        invariant
            stride == width + 1,
            width < u32::MAX,
            height < u32::MAX,
            total == (width + 1) * (height + 1),
            total <= u32::MAX,
            entries@.len() == sprites@.len(),
            forall|k: int|
                0 <= k < entries@.len() ==> {
                    let e = #[trigger] entries@[k];
                    &&& e.0.left + e.0.width <= width
                    &&& e.0.top + e.0.height <= height
                    &&& e.1.0 <= e.0.width
                    &&& e.1.1 <= e.0.height
                    &&& (sprites@[k] is Some ==> sprites@[k].unwrap()@.len() == e.1.0 * e.1.1)
                },
            0 <= i <= entries@.len(),
            pixels@.len() == total,
            pixels@ == composed_sprites(entries@.subrange(0, i as int), sprites@, stride as int, total),
        decreases entries@.len() - i,
    {
        let entry = entries[i];
        let inner = Region {
            top: entry.0.top,
            left: entry.0.left,
            width: entry.1.0,
            height: entry.1.1,
        };
        proof {
            assert(stride * (inner.top + inner.height) <= stride * (height + 1))
                by (nonlinear_arith)
                requires
                    stride > 0,
                    0 <= inner.top + inner.height <= height + 1,
            ;
            assert(stride * (entry.0.top + entry.0.height + 1) <= stride * (height + 1))
                by (nonlinear_arith)
                requires
                    stride > 0,
                    0 <= entry.0.top + entry.0.height + 1 <= height + 1,
            ;
            assert(stride * (height + 1) == total) by (nonlinear_arith)
                requires
                    stride == width + 1,
                    total == (width + 1) * (height + 1),
            ;
        }
        let ghost before = pixels@;
        match &sprites[i] {
            Some(sp) => {
                blit_sprite(sp, &inner, stride, &mut pixels);
            },
            None => {},
        }
        draw_border(Rgba::new(255, 0, 255, 255), &entry.0, stride, &mut pixels);
        proof {
            let sub1 = entries@.subrange(0, i + 1);
            assert(sub1.drop_last() =~= entries@.subrange(0, i as int));
            assert(sub1.last() == entries@[i as int]);
            assert(inner_rect(sub1.last()) == inner);
        }
        i = i + 1;
    }
    proof {
        assert(entries@.subrange(0, entries@.len() as int) =~= entries@);
    }
    pixels
}

/// Serialize a pixel buffer to raw bytes, four per pixel, in r, g, b, a
/// order.
pub fn rgba_bytes(pixels: &Vec<Rgba>) -> (r: Vec<u8>)
    requires
        4 * pixels@.len() <= usize::MAX,
    ensures
        r@.len() == 4 * pixels@.len(),
        forall|i: int|
            0 <= i < pixels@.len() ==> {
                &&& r@[4 * i] == (#[trigger] pixels@[i]).r
                &&& r@[4 * i + 1] == pixels@[i].g
                &&& r@[4 * i + 2] == pixels@[i].b
                &&& r@[4 * i + 3] == pixels@[i].a
            },
{
    let mut out: Vec<u8> = Vec::new();
    let mut i: usize = 0;
    while i < pixels.len()
        invariant
            4 * pixels@.len() <= usize::MAX,
            0 <= i <= pixels@.len(),
            out@.len() == 4 * i,
            forall|j: int|
                0 <= j < i ==> {
                    &&& out@[4 * j] == (#[trigger] pixels@[j]).r
                    &&& out@[4 * j + 1] == pixels@[j].g
                    &&& out@[4 * j + 2] == pixels@[j].b
                    &&& out@[4 * j + 3] == pixels@[j].a
                },
        decreases pixels@.len() - i,
    {
        let p = pixels[i];
        out.push(p.r);
        out.push(p.g);
        out.push(p.b);
        out.push(p.a);
        i = i + 1;
    }
    out
}

} // verus!
