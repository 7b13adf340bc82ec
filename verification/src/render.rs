use vstd::prelude::*;
use crate::block_match::{BlockMatchResult, Region};
use crate::buffer::{ImageView, RgbaBuffer};
use crate::canvas::{
    lemma_repaint_channels, lemma_repaint_none, lemma_repaint_same, lemma_repaint_step, lemma_view_ext, repaint,
};

verus! {

/// How unmatched regions are highlighted.
#[derive(Debug, Clone, Copy, PartialEq, Eq, Structural)]
pub enum HighlightStyle {
    /// Only the bounding-box outline, `stroke` pixels wide (at least 1).
    Outline { stroke: u32 },
    /// The whole bounding box blended with the color at alpha 102 (~40 %).
    Filled,
}

impl Default for HighlightStyle {
    fn default() -> (s: HighlightStyle)
        ensures
            s == (HighlightStyle::Outline { stroke: 2 }),
    {
        HighlightStyle::Outline { stroke: 2 }
    }
}

#[derive(Debug, Clone)]
pub struct RenderOptions {
    /// How to highlight unmatched regions.
    pub style: HighlightStyle,
    /// Passed to `BlockMatchResult::unmatched_regions` when clustering.
    pub merge_gap: u32,
    /// Passed to `BlockMatchResult::unmatched_regions` when clustering.
    pub min_blocks: u32,
    /// If true, a line is drawn on each displaced block along its motion
    /// vector.
    pub draw_vectors: bool,
}

impl Default for RenderOptions {
    fn default() -> (o: RenderOptions)
        ensures
            o.style == (HighlightStyle::Outline { stroke: 2 }),
            o.merge_gap == 1,
            o.min_blocks == 1,
            !o.draw_vectors,
    {
        RenderOptions { style: HighlightStyle::Outline { stroke: 2 }, merge_gap: 1, min_blocks: 1, draw_vectors: false }
    }
}

/// Alpha of the `Filled` style (~40 %).
pub const FILLED_ALPHA: u8 = 102;

/// `color` blended over `old` with opacity `alpha / 255`, rounded down.
pub open spec fn blend(color: u8, old: u8, alpha: u8) -> u8 {
    ((color as int * alpha as int + old as int * (255 - alpha as int)) / 255) as u8
}

pub open spec fn min_int(a: int, b: int) -> int {
    if a <= b {
        a
    } else {
        b
    }
}

pub open spec fn max_int(a: int, b: int) -> int {
    if a >= b {
        a
    } else {
        b
    }
}

/// Pixel `(x, y)` lies in `r` clipped to the image.
pub open spec fn in_rect(v: ImageView, r: Region, x: int, y: int) -> bool {
    &&& r.x <= x < min_int(r.x + r.width, v.width as int)
    &&& r.y <= y < min_int(r.y + r.height, v.height as int)
}

/// Pixel `(x, y)` lies within `max(stroke, 1)` pixels of the border of
/// `r` clipped to the image.
pub open spec fn in_outline(v: ImageView, r: Region, stroke: u32, x: int, y: int) -> bool {
    let s = max_int(stroke as int, 1);
    let x1 = r.x as int;
    let y1 = r.y as int;
    let x2 = min_int(r.x + r.width, v.width as int);
    let y2 = min_int(r.y + r.height, v.height as int);
    &&& in_rect(v, r, x, y)
    &&& (y < y1 + s || y >= y2 - s || x < x1 + s || x >= x2 - s)
}

/// `v` with region `r` highlighted in `color` in the given style.
pub open spec fn paint_region_view(v: ImageView, r: Region, color: [u8; 3], style: HighlightStyle) -> ImageView {
    match style {
        HighlightStyle::Filled => repaint(v, |x: int, y: int| in_rect(v, r, x, y), blend_with(color, FILLED_ALPHA)),
        HighlightStyle::Outline { stroke } => repaint(
            v,
            |x: int, y: int| in_outline(v, r, stroke, x, y),
            fill_with([color[0], color[1], color[2], 255]),
        ),
    }
}

/// `v` with the regions highlighted one after the other.
pub open spec fn paint_regions_view(v: ImageView, regions: Seq<Region>, color: [u8; 3], style: HighlightStyle) -> ImageView
    decreases regions.len(),
{
    if regions.len() == 0 {
        v
    } else {
        paint_regions_view(paint_region_view(v, regions[0], color, style), regions.drop_first(), color, style)
    }
}

/// The constant-color repaint with pixel `p`.
pub open spec fn fill_with(p: [u8; 4]) -> spec_fn(int, int, int, u8) -> u8 {
    |x: int, y: int, c: int, old: u8| p[c]
}

/// Painting twice with one pixel value is painting the union once.
pub proof fn lemma_fill_union(v: ImageView, s1: spec_fn(int, int) -> bool, s2: spec_fn(int, int) -> bool, p: [u8; 4])
    requires
        v.wf(),
    ensures
        repaint(repaint(v, s1, fill_with(p)), s2, fill_with(p)) == repaint(v, |x: int, y: int| s1(x, y) || s2(x, y), fill_with(p)),
{
    let a = repaint(v, s1, fill_with(p));
    lemma_repaint_channels(v, s1, fill_with(p));
    lemma_repaint_channels(a, s2, fill_with(p));
    lemma_repaint_channels(v, |x: int, y: int| s1(x, y) || s2(x, y), fill_with(p));
    lemma_view_ext(repaint(a, s2, fill_with(p)), repaint(v, |x: int, y: int| s1(x, y) || s2(x, y), fill_with(p)));
}

/// Sets every pixel of `[xa, xb) × [ya, yb)` (clipped to nothing outside
/// the image) to `pixel`.
fn fill_solid(img: &mut RgbaBuffer, xa: u32, xb: u32, ya: u32, yb: u32, pixel: [u8; 4])
    requires
        xb <= old(img)@.width,
        yb <= old(img)@.height,
    ensures
        final(img)@ == repaint(old(img)@, |x: int, y: int| xa <= x < xb && ya <= y < yb, fill_with(pixel)),
{
    let _ = img.width();
    let ghost v = img@;
    let ghost goal = repaint(v, |x: int, y: int| xa <= x < xb && ya <= y < yb, fill_with(pixel));
    proof {
        lemma_repaint_none(v, |x: int, y: int| xa <= x < xb && ya <= y < ya, fill_with(pixel));
    }
    let mut y = ya;
    while y < yb
        invariant
            v.wf(),
            xb <= v.width,
            yb <= v.height,
            ya <= y,
            y <= yb || ya > yb,
            ya > yb ==> y == ya,
            img@ == repaint(v, |x: int, y2: int| xa <= x < xb && ya <= y2 < y, fill_with(pixel)),
        decreases yb - y,
    {
        proof {
            lemma_repaint_same(
                v,
                |x: int, y2: int| xa <= x < xb && ya <= y2 < y,
                |x: int, y2: int| (xa <= x < xb && ya <= y2 < y) || (xa <= x < xa && y2 == y),
                fill_with(pixel),
            );
        }
        let mut x = xa;
        while x < xb
            invariant
                v.wf(),
                xb <= v.width,
                yb <= v.height,
                ya <= y < yb,
                xa <= x,
                x <= xb || xa > xb,
                xa > xb ==> x == xa,
                img@ == repaint(v, |x2: int, y2: int| (xa <= x2 < xb && ya <= y2 < y) || (xa <= x2 < x && y2 == y), fill_with(pixel)),
            decreases xb - x,
        {
            proof {
                lemma_repaint_step(
                    v,
                    img@,
                    |x2: int, y2: int| (xa <= x2 < xb && ya <= y2 < y) || (xa <= x2 < x && y2 == y),
                    |x2: int, y2: int| (xa <= x2 < xb && ya <= y2 < y) || (xa <= x2 < x + 1 && y2 == y),
                    fill_with(pixel),
                    x as int,
                    y as int,
                    pixel@,
                );
            }
            img.put_pixel(x, y, pixel);
            x = x + 1;
        }
        proof {
            lemma_repaint_same(
                v,
                |x2: int, y2: int| (xa <= x2 < xb && ya <= y2 < y) || (xa <= x2 < x && y2 == y),
                |x2: int, y2: int| xa <= x2 < xb && ya <= y2 < y + 1,
                fill_with(pixel),
            );
        }
        y = y + 1;
    }
    proof {
        lemma_repaint_same(
            v,
            |x: int, y2: int| xa <= x < xb && ya <= y2 < y,
            |x: int, y2: int| xa <= x < xb && ya <= y2 < yb,
            fill_with(pixel),
        );
    }
}

/// The blend repaint with RGB `color` at `alpha`; alpha channels are kept.
pub open spec fn blend_with(color: [u8; 3], alpha: u8) -> spec_fn(int, int, int, u8) -> u8 {
    |x: int, y: int, c: int, old: u8| if c < 3 { blend(color[c], old, alpha) } else { old }
}

fn blend_channel(color: u8, old: u8, alpha: u8) -> (b: u8)
    ensures
        b == blend(color, old, alpha),
{
    let a = alpha as u16;
    let inv = 255u16 - a;
    assert(color as int * a + old as int * inv <= 255 * 255) by (nonlinear_arith)
        requires color <= 255, old <= 255, a + inv == 255, a >= 0, inv >= 0;
    assert(color as int * a >= 0 && old as int * inv >= 0) by (nonlinear_arith)
        requires color >= 0, old >= 0, a >= 0, inv >= 0;
    ((color as u16 * a + old as u16 * inv) / 255) as u8
}

/// Blends RGB `color` over pixel `(x, y)` at opacity `alpha / 255`,
/// keeping its alpha channel.
pub fn blend_pixel(img: &mut RgbaBuffer, x: u32, y: u32, color: [u8; 3], alpha: u8)
    requires
        old(img)@.in_bounds(x as int, y as int),
    ensures
        final(img)@ == old(img)@.with_pixel(
            x as int,
            y as int,
            seq![
                blend(color[0], old(img)@.channel(x as int, y as int, 0), alpha),
                blend(color[1], old(img)@.channel(x as int, y as int, 1), alpha),
                blend(color[2], old(img)@.channel(x as int, y as int, 2), alpha),
                old(img)@.channel(x as int, y as int, 3),
            ],
        ),
{
    let p = img.get_pixel(x, y);
    let q = [blend_channel(color[0], p[0], alpha), blend_channel(color[1], p[1], alpha), blend_channel(color[2], p[2], alpha), p[3]];
    img.put_pixel(x, y, q);
    proof {
        assert(q@ =~= seq![
            blend(color[0], old(img)@.channel(x as int, y as int, 0), alpha),
            blend(color[1], old(img)@.channel(x as int, y as int, 1), alpha),
            blend(color[2], old(img)@.channel(x as int, y as int, 2), alpha),
            old(img)@.channel(x as int, y as int, 3),
        ]);
    }
}

/// Blends RGB `color` over every pixel of `[xa, xb) × [ya, yb)`.
fn blend_rect(img: &mut RgbaBuffer, xa: u32, xb: u32, ya: u32, yb: u32, color: [u8; 3], alpha: u8)
    requires
        xb <= old(img)@.width,
        yb <= old(img)@.height,
    ensures
        final(img)@ == repaint(old(img)@, |x: int, y: int| xa <= x < xb && ya <= y < yb, blend_with(color, alpha)),
{
    let _ = img.width();
    let ghost v = img@;
    let ghost f = blend_with(color, alpha);
    proof {
        lemma_repaint_none(v, |x: int, y: int| xa <= x < xb && ya <= y < ya, f);
    }
    let mut y = ya;
    while y < yb
        invariant
            v.wf(),
            f == blend_with(color, alpha),
            xb <= v.width,
            yb <= v.height,
            ya <= y,
            y <= yb || ya > yb,
            ya > yb ==> y == ya,
            img@ == repaint(v, |x: int, y2: int| xa <= x < xb && ya <= y2 < y, f),
        decreases yb - y,
    {
        proof {
            lemma_repaint_same(
                v,
                |x: int, y2: int| xa <= x < xb && ya <= y2 < y,
                |x: int, y2: int| (xa <= x < xb && ya <= y2 < y) || (xa <= x < xa && y2 == y),
                f,
            );
        }
        let mut x = xa;
        while x < xb
            invariant
                v.wf(),
                f == blend_with(color, alpha),
                xb <= v.width,
                yb <= v.height,
                ya <= y < yb,
                xa <= x,
                x <= xb || xa > xb,
                xa > xb ==> x == xa,
                img@ == repaint(v, |x2: int, y2: int| (xa <= x2 < xb && ya <= y2 < y) || (xa <= x2 < x && y2 == y), f),
            decreases xb - x,
        {
            let ghost sel = |x2: int, y2: int| (xa <= x2 < xb && ya <= y2 < y) || (xa <= x2 < x && y2 == y);
            let ghost cur = img@;
            proof {
                lemma_repaint_channels(v, sel, f);
            }
            blend_pixel(img, x, y, color, alpha);
            proof {
                let p = seq![
                    blend(color[0], cur.channel(x as int, y as int, 0), alpha),
                    blend(color[1], cur.channel(x as int, y as int, 1), alpha),
                    blend(color[2], cur.channel(x as int, y as int, 2), alpha),
                    cur.channel(x as int, y as int, 3),
                ];
                assert forall|c: int| 0 <= c < 4 implies #[trigger] p[c] == f(x as int, y as int, c, v.channel(x as int, y as int, c)) by {
                }
                lemma_repaint_step(
                    v,
                    cur,
                    sel,
                    |x2: int, y2: int| (xa <= x2 < xb && ya <= y2 < y) || (xa <= x2 < x + 1 && y2 == y),
                    f,
                    x as int,
                    y as int,
                    p,
                );
            }
            x = x + 1;
        }
        proof {
            lemma_repaint_same(
                v,
                |x2: int, y2: int| (xa <= x2 < xb && ya <= y2 < y) || (xa <= x2 < x && y2 == y),
                |x2: int, y2: int| xa <= x2 < xb && ya <= y2 < y + 1,
                f,
            );
        }
        y = y + 1;
    }
    proof {
        lemma_repaint_same(
            v,
            |x: int, y2: int| xa <= x < xb && ya <= y2 < y,
            |x: int, y2: int| xa <= x < xb && ya <= y2 < yb,
            f,
        );
    }
}

fn min_u64(a: u64, b: u64) -> (m: u64)
    ensures
        m == min_int(a as int, b as int),
{
    if a <= b {
        a
    } else {
        b
    }
}

/// Highlights one region.
fn paint_region(img: &mut RgbaBuffer, r: Region, color: [u8; 3], style: HighlightStyle)
    ensures
        final(img)@ == paint_region_view(old(img)@, r, color, style),
{
    let w = img.width();
    let h = img.height();
    let ghost v = img@;
    let x1 = min_u64(r.x as u64, w as u64) as u32;
    let y1 = min_u64(r.y as u64, h as u64) as u32;
    let x2 = min_u64(r.x as u64 + r.width as u64, w as u64) as u32;
    let y2 = min_u64(r.y as u64 + r.height as u64, h as u64) as u32;
    if x2 <= x1 || y2 <= y1 {
        proof {
            match style {
                HighlightStyle::Filled => {
                    lemma_repaint_none(v, |x: int, y: int| in_rect(v, r, x, y), blend_with(color, FILLED_ALPHA));
                },
                HighlightStyle::Outline { stroke } => {
                    lemma_repaint_none(
                        v,
                        |x: int, y: int| in_outline(v, r, stroke, x, y),
                        fill_with([color[0], color[1], color[2], 255]),
                    );
                },
            }
        }
        return;
    }
    match style {
        HighlightStyle::Filled => {
            blend_rect(img, x1, x2, y1, y2, color, FILLED_ALPHA);
            proof {
                lemma_repaint_same(
                    v,
                    |x: int, y: int| x1 <= x < x2 && y1 <= y < y2,
                    |x: int, y: int| in_rect(v, r, x, y),
                    blend_with(color, FILLED_ALPHA),
                );
            }
        },
        HighlightStyle::Outline { stroke } => {
            let s: u32 = if stroke < 1 { 1 } else { stroke };
            let solid: [u8; 4] = [color[0], color[1], color[2], 255];
            let top_end = min_u64(y1 as u64 + s as u64, y2 as u64) as u32;
            let bottom_start = if y2 >= s { if y2 - s >= y1 { y2 - s } else { y1 } } else { y1 };
            let inner_y1 = top_end;
            let inner_y2 = if bottom_start >= inner_y1 { bottom_start } else { inner_y1 };
            let left_end = min_u64(x1 as u64 + s as u64, x2 as u64) as u32;
            let right_start = if x2 >= s { if x2 - s >= x1 { x2 - s } else { x1 } } else { x1 };
            let ghost k = fill_with(solid);
            let ghost sa = |x: int, y: int| x1 <= x < x2 && y1 <= y < top_end;
            let ghost sb = |x: int, y: int| x1 <= x < x2 && bottom_start <= y < y2;
            let ghost sc = |x: int, y: int| x1 <= x < left_end && inner_y1 <= y < inner_y2;
            let ghost sd = |x: int, y: int| right_start <= x < x2 && inner_y1 <= y < inner_y2;
            fill_solid(img, x1, x2, y1, top_end, solid);
            fill_solid(img, x1, x2, bottom_start, y2, solid);
            proof {
                lemma_fill_union(v, sa, sb, solid);
            }
            let ghost sab = |x: int, y: int| sa(x, y) || sb(x, y);
            fill_solid(img, x1, left_end, inner_y1, inner_y2, solid);
            proof {
                lemma_fill_union(v, sab, sc, solid);
            }
            let ghost sabc = |x: int, y: int| sab(x, y) || sc(x, y);
            fill_solid(img, right_start, x2, inner_y1, inner_y2, solid);
            proof {
                lemma_fill_union(v, sabc, sd, solid);
                lemma_repaint_same(
                    v,
                    |x: int, y: int| sabc(x, y) || sd(x, y),
                    |x: int, y: int| in_outline(v, r, stroke, x, y),
                    k,
                );
                assert(solid == [color[0], color[1], color[2], 255u8]);
            }
        },
    }
}

/// Highlights each region in turn.
fn paint_regions(img: &mut RgbaBuffer, regions: &Vec<Region>, color: [u8; 3], style: HighlightStyle)
    ensures
        final(img)@ == paint_regions_view(old(img)@, regions@, color, style),
{
    let mut i: usize = 0;
    assert(regions@.skip(0) =~= regions@);
    while i < regions.len()
        invariant
            i <= regions@.len(),
            paint_regions_view(old(img)@, regions@, color, style) == paint_regions_view(img@, regions@.skip(i as int), color, style),
        decreases regions@.len() - i,
    {
        proof {
            assert(regions@.skip(i as int)[0] == regions@[i as int]);
            assert(regions@.skip(i as int).drop_first() =~= regions@.skip(i + 1));
        }
        paint_region(img, regions[i], color, style);
        i = i + 1;
    }
    proof {
        assert(regions@.skip(i as int) =~= Seq::<Region>::empty());
    }
}

/// Pixel `(x, y)` lies on the 1-pixel outline that [`draw_regions`] draws
/// for `r`: the box from `(min(x, w-1), min(y, h-1))` to
/// `(min(x + width, w) - 1, min(y + height, h) - 1)`, clamped at 0.
pub open spec fn in_frame(v: ImageView, r: Region, x: int, y: int) -> bool {
    let x1 = min_int(r.x as int, max_int(v.width - 1, 0));
    let y1 = min_int(r.y as int, max_int(v.height - 1, 0));
    let x2 = max_int(min_int(r.x + r.width, v.width as int) - 1, 0);
    let y2 = max_int(min_int(r.y + r.height, v.height as int) - 1, 0);
    ||| x1 <= x <= x2 && (y == y1 || y == y2)
    ||| y1 <= y <= y2 && (x == x1 || x == x2)
}

/// `v` with the outlines of the regions drawn in `color`, one after the other.
pub open spec fn frames_view(v: ImageView, regions: Seq<Region>, color: [u8; 4]) -> ImageView
    decreases regions.len(),
{
    if regions.len() == 0 {
        v
    } else {
        frames_view(
            repaint(v, |x: int, y: int| in_frame(v, regions[0], x, y), fill_with(color)),
            regions.drop_first(),
            color,
        )
    }
}

fn draw_frame(img: &mut RgbaBuffer, r: Region, color: [u8; 4])
    requires
        old(img)@.width >= 1,
        old(img)@.height >= 1,
    ensures
        final(img)@ == repaint(old(img)@, |x: int, y: int| in_frame(old(img)@, r, x, y), fill_with(color)),
{
    let iw = img.width();
    let ih = img.height();
    let ghost v = img@;
    let x1: u32 = if r.x <= iw - 1 { r.x } else { iw - 1 };
    let y1: u32 = if r.y <= ih - 1 { r.y } else { ih - 1 };
    let xe = min_u64(r.x as u64 + r.width as u64, iw as u64) as u32;
    let ye = min_u64(r.y as u64 + r.height as u64, ih as u64) as u32;
    let x2: u32 = if xe >= 1 { xe - 1 } else { 0 };
    let y2: u32 = if ye >= 1 { ye - 1 } else { 0 };
    let ghost sa = |x: int, y: int| x1 <= x < x2 + 1 && y1 <= y < y1 + 1;
    let ghost sb = |x: int, y: int| x1 <= x < x2 + 1 && y2 <= y < y2 + 1;
    let ghost sc = |x: int, y: int| x1 <= x < x1 + 1 && y1 <= y < y2 + 1;
    let ghost sd = |x: int, y: int| x2 <= x < x2 + 1 && y1 <= y < y2 + 1;
    fill_solid(img, x1, x2 + 1, y1, y1 + 1, color);
    fill_solid(img, x1, x2 + 1, y2, y2 + 1, color);
    proof {
        lemma_fill_union(v, sa, sb, color);
    }
    let ghost sab = |x: int, y: int| sa(x, y) || sb(x, y);
    fill_solid(img, x1, x1 + 1, y1, y2 + 1, color);
    proof {
        lemma_fill_union(v, sab, sc, color);
    }
    let ghost sabc = |x: int, y: int| sab(x, y) || sc(x, y);
    fill_solid(img, x2, x2 + 1, y1, y2 + 1, color);
    proof {
        lemma_fill_union(v, sabc, sd, color);
        lemma_repaint_same(
            v,
            |x: int, y: int| sabc(x, y) || sd(x, y),
            |x: int, y: int| in_frame(v, r, x, y),
            fill_with(color),
        );
    }
}

/// Draws a 1-pixel outline of each region's box in `color`.
pub fn draw_regions(img: &mut RgbaBuffer, regions: &Vec<Region>, color: [u8; 4])
    requires
        regions@.len() > 0 ==> old(img)@.width >= 1 && old(img)@.height >= 1,
    ensures
        final(img)@ == frames_view(old(img)@, regions@, color),
{
    let mut i: usize = 0;
    assert(regions@.skip(0) =~= regions@);
    while i < regions.len()
        invariant
            i <= regions@.len(),
            regions@.len() > 0 ==> img@.width >= 1 && img@.height >= 1,
            frames_view(old(img)@, regions@, color) == frames_view(img@, regions@.skip(i as int), color),
        decreases regions@.len() - i,
    {
        proof {
            assert(regions@.skip(i as int)[0] == regions@[i as int]);
            assert(regions@.skip(i as int).drop_first() =~= regions@.skip(i + 1));
        }
        let _ = img.width();
        draw_frame(img, regions[i], color);
        i = i + 1;
    }
    proof {
        assert(regions@.skip(i as int) =~= Seq::<Region>::empty());
    }
}

pub open spec fn abs_val(v: int) -> int {
    if v < 0 {
        -v
    } else {
        v
    }
}

/// The points visited by Bresenham's all-octant line walk from `(x, y)`
/// with error term `err` towards `(x1, y1)`, at most `fuel` of them.
pub open spec fn line_walk(x: int, y: int, err: int, x1: int, y1: int, dx: int, dy: int, sx: int, sy: int, fuel: nat) -> Seq<(int, int)>
    decreases fuel,
{
    if fuel == 0 {
        Seq::empty()
    } else if x == x1 && y == y1 {
        seq![(x, y)]
    } else {
        let e2 = 2 * err;
        let nx = if e2 >= dy { x + sx } else { x };
        let err2 = if e2 >= dy { err + dy } else { err };
        let ny = if e2 <= dx { y + sy } else { y };
        let err3 = if e2 <= dx { err2 + dx } else { err2 };
        seq![(x, y)] + line_walk(nx, ny, err3, x1, y1, dx, dy, sx, sy, (fuel - 1) as nat)
    }
}

/// The points of the line from `(x0, y0)` to `(x1, y1)`, both ends included.
pub open spec fn line_points(x0: int, y0: int, x1: int, y1: int) -> Seq<(int, int)> {
    let dx = abs_val(x1 - x0);
    let dy = -abs_val(y1 - y0);
    let sx = if x0 < x1 { 1int } else { -1int };
    let sy = if y0 < y1 { 1int } else { -1int };
    line_walk(x0, y0, dx + dy, x1, y1, dx, dy, sx, sy, (dx - dy + 1) as nat)
}

/// `p` occurs in `s`.
pub open spec fn in_seq(s: Seq<(int, int)>, p: (int, int)) -> bool {
    exists|k: int| 0 <= k < s.len() && #[trigger] s[k] == p
}

/// `v` with the points of the line that lie in the image set to `color`.
pub open spec fn line_view(v: ImageView, x0: int, y0: int, x1: int, y1: int, color: [u8; 4]) -> ImageView {
    repaint(v, |x: int, y: int| in_seq(line_points(x0, y0, x1, y1), (x, y)), fill_with(color))
}

/// Draws the line from `(x0, y0)` to `(x1, y1)` in `color`, skipping the
/// points outside the image.
pub fn draw_line(img: &mut RgbaBuffer, x0: i64, y0: i64, x1: i64, y1: i64, color: [u8; 4])
    requires
        -0x8000_0000 <= x0 <= 0x8000_0000,
        -0x8000_0000 <= y0 <= 0x8000_0000,
        -0x8000_0000 <= x1 <= 0x8000_0000,
        -0x8000_0000 <= y1 <= 0x8000_0000,
    ensures
        final(img)@ == line_view(old(img)@, x0 as int, y0 as int, x1 as int, y1 as int, color),
{
    let w = img.width() as i64;
    let h = img.height() as i64;
    let ghost v = img@;
    let dx: i64 = if x1 >= x0 { x1 - x0 } else { x0 - x1 };
    let ady: i64 = if y1 >= y0 { y1 - y0 } else { y0 - y1 };
    let dy: i64 = -ady;
    let sx: i64 = if x0 < x1 { 1 } else { -1 };
    let sy: i64 = if y0 < y1 { 1 } else { -1 };
    let mut err: i128 = (dx + dy) as i128;
    let mut x = x0;
    let mut y = y0;
    let ghost points = line_points(x0 as int, y0 as int, x1 as int, y1 as int);
    let ghost mut drawn: Seq<(int, int)> = Seq::empty();
    let ghost mut fuel: nat = (dx - dy + 1) as nat;
    let ghost mut a: int = 0;
    let ghost mut b: int = 0;
    proof {
        assert(points =~= drawn + line_walk(x as int, y as int, err as int, x1 as int, y1 as int, dx as int, dy as int, sx as int, sy as int, fuel));
        lemma_repaint_none(v, |p: int, q: int| in_seq(drawn, (p, q)), fill_with(color));
        assert(dx * (b + 1) - ady * (a + 1) == dx - ady) by (nonlinear_arith)
            requires a == 0, b == 0;
    }
    loop
        invariant_except_break
            points == drawn + line_walk(x as int, y as int, err as int, x1 as int, y1 as int, dx as int, dy as int, sx as int, sy as int, fuel),
            fuel >= (dx - a) + (ady - b) + 1,
        invariant
            v.wf(),
            w == v.width,
            h == v.height,
            points == line_points(x0 as int, y0 as int, x1 as int, y1 as int),
            -0x8000_0000 <= x0 <= 0x8000_0000,
            -0x8000_0000 <= y0 <= 0x8000_0000,
            -0x8000_0000 <= x1 <= 0x8000_0000,
            -0x8000_0000 <= y1 <= 0x8000_0000,
            dx == abs_val(x1 - x0),
            ady == abs_val(y1 - y0),
            dy == -ady,
            sx == (if x0 < x1 { 1int } else { -1int }),
            sy == (if y0 < y1 { 1int } else { -1int }),
            0 <= a <= dx,
            0 <= b <= ady,
            x == x0 + sx * a,
            y == y0 + sy * b,
            err == dx * (b + 1) - ady * (a + 1),
            img@ == repaint(v, |p: int, q: int| in_seq(drawn, (p, q)), fill_with(color)),
        ensures
            points == drawn,
            img@ == repaint(v, |p: int, q: int| in_seq(drawn, (p, q)), fill_with(color)),
        decreases (dx - a) + (ady - b),
    {
        let ghost sel = |p: int, q: int| in_seq(drawn, (p, q));
        let ghost pt = (x as int, y as int);
        let ghost drawn2 = drawn.push(pt);
        let ghost sel2 = |p: int, q: int| in_seq(drawn2, (p, q));
        proof {
            assert forall|p: int, q: int| #[trigger] sel2(p, q) == (sel(p, q) || (p == x && q == y)) by {
                if sel2(p, q) {
                    let k = choose|k: int| 0 <= k < drawn2.len() && #[trigger] drawn2[k] == (p, q);
                    if k < drawn.len() {
                        assert(drawn[k] == drawn2[k]);
                    }
                }
                if sel(p, q) {
                    let k = choose|k: int| 0 <= k < drawn.len() && #[trigger] drawn[k] == (p, q);
                    assert(drawn2[k] == drawn[k]);
                }
                if p == x && q == y {
                    assert(drawn2[drawn.len() as int] == pt);
                }
            }
        }
        if x >= 0 && y >= 0 && x < w && y < h {
            proof {
                lemma_repaint_step(v, img@, sel, sel2, fill_with(color), x as int, y as int, color@);
            }
            img.put_pixel(x as u32, y as u32, color);
        } else {
            proof {
                lemma_repaint_same(v, sel, sel2, fill_with(color));
            }
        }
        proof {
            drawn = drawn2;
        }
        if x == x1 && y == y1 {
            proof {
                assert(points =~= drawn);
            }
            break;
        }
        proof {
            assert(-0x1_0000_0000_0000_0000_0000 <= err <= 0x1_0000_0000_0000_0000_0000) by (nonlinear_arith)
                requires err == dx * (b + 1) - ady * (a + 1), 0 <= a <= dx, 0 <= b <= ady, dx <= 0x1_0000_0000,
                    ady <= 0x1_0000_0000;
        }
        let e2: i128 = 2 * err;
        let ghost (a0, b0) = (a, b);
        proof {
            assert(a == dx ==> x == x1) by (nonlinear_arith)
                requires x == x0 + sx * a, (x0 < x1 ==> sx == 1 && dx == x1 - x0), (x0 >= x1 ==> sx == -1 && dx == x0 - x1);
            assert(b == ady ==> y == y1) by (nonlinear_arith)
                requires y == y0 + sy * b, (y0 < y1 ==> sy == 1 && ady == y1 - y0), (y0 >= y1 ==> sy == -1 && ady == y0 - y1);
            if a == dx {
                assert(b < ady);
                assert(ady * (a + 1) == ady * dx + ady) by (nonlinear_arith)
                    requires a == dx;
                assert(ady * dx == dx * ady) by (nonlinear_arith);
                assert(dx * (b + 1) <= dx * ady) by (nonlinear_arith)
                    requires b + 1 <= ady, dx >= 0;
                assert(e2 < dy);
            }
            if b == ady {
                assert(a < dx);
                assert(ady * (a + 1) <= ady * dx) by (nonlinear_arith)
                    requires a + 1 <= dx, ady >= 0;
                assert(dx * (b + 1) == dx * ady + dx) by (nonlinear_arith)
                    requires b == ady;
                assert(ady * dx == dx * ady) by (nonlinear_arith);
                assert(e2 > dx);
            }
        }
        if e2 >= dy as i128 {
            err = err + dy as i128;
            x = x + sx;
            proof {
                a = a + 1;
            }
        }
        if e2 <= dx as i128 {
            err = err + dx as i128;
            y = y + sy;
            proof {
                b = b + 1;
            }
        }
        proof {
            fuel = (fuel - 1) as nat;
            assert(sx * a == sx * a0 + (if a == a0 { 0 } else { sx })) by (nonlinear_arith)
                requires a == a0 || a == a0 + 1;
            assert(sy * b == sy * b0 + (if b == b0 { 0 } else { sy })) by (nonlinear_arith)
                requires b == b0 || b == b0 + 1;
            assert(dx * (b + 1) == dx * (b0 + 1) + (if b == b0 { 0 } else { dx })) by (nonlinear_arith)
                requires b == b0 || b == b0 + 1;
            assert(ady * (a + 1) == ady * (a0 + 1) + (if a == a0 { 0 } else { ady })) by (nonlinear_arith)
                requires a == a0 || a == a0 + 1;
            assert(drawn + line_walk(x as int, y as int, err as int, x1 as int, y1 as int, dx as int, dy as int, sx as int, sy as int, fuel) =~= drawn.drop_last() + line_walk(pt.0, pt.1, (e2 / 2) as int, x1 as int, y1 as int, dx as int, dy as int, sx as int, sy as int, (fuel + 1) as nat));
        }
    }
}

/// Color of motion-vector lines.
pub const ARROW_COLOR: [u8; 4] = [0, 255, 0, 255];

/// `v` with a line drawn, for every block `(bx', by')` at or after
/// `(bx, by)` in row-major order whose vector is not `(0, 0)`, from the
/// block centre to the block's entry of `ends`.
pub open spec fn arrows_from(
    v: ImageView,
    vs: Seq<crate::block_match::MotionVector>,
    ends: Seq<(i32, i32)>,
    cols: int,
    rows: int,
    bs: int,
    bx: int,
    by: int,
) -> ImageView
    decreases rows - by, cols - bx,
{
    if by >= rows || cols <= 0 {
        v
    } else if bx >= cols {
        arrows_from(v, vs, ends, cols, rows, bs, 0, by + 1)
    } else {
        let i = by * cols + bx;
        let next = if vs[i].dx == 0 && vs[i].dy == 0 {
            v
        } else {
            line_view(v, bx * bs + bs / 2, by * bs + bs / 2, ends[i].0 as int, ends[i].1 as int, ARROW_COLOR)
        };
        arrows_from(next, vs, ends, cols, rows, bs, bx + 1, by)
    }
}

/// Draws, for each block whose vector is not `(0, 0)`, a line from the
/// block centre to its entry of `ends` (the vector scaled into the block).
pub fn draw_vectors(img: &mut RgbaBuffer, result: &BlockMatchResult, ends: &Vec<(i32, i32)>)
    requires
        result.wf(),
        ends@.len() == result.vectors@.len(),
        result.cols as int * result.rows as int <= i32::MAX,
        result.cols as int * result.block_size as int <= i32::MAX,
        result.rows as int * result.block_size as int <= i32::MAX,
    ensures
        final(img)@ == arrows_from(
            old(img)@,
            result.vectors@,
            ends@,
            result.cols as int,
            result.rows as int,
            result.block_size as int,
            0,
            0,
        ),
{
    let cols = result.cols;
    let rows = result.rows;
    let b = result.block_size as i64;
    let ghost ci = cols as int;
    let ghost ri = rows as int;
    let ghost goal = arrows_from(img@, result.vectors@, ends@, ci, ri, b as int, 0, 0);
    let mut by: u32 = 0;
    while by < rows
        invariant
            result.wf(),
            ends@.len() == result.vectors@.len(),
            ci == cols,
            ri == rows,
            cols == result.cols,
            rows == result.rows,
            b == result.block_size,
            ci * b <= i32::MAX,
            ri * b <= i32::MAX,
            ci * ri <= i32::MAX,
            by <= rows,
            goal == arrows_from(img@, result.vectors@, ends@, ci, ri, b as int, 0, by as int),
        decreases rows - by,
    {
        let mut bx: u32 = 0;
        while bx < cols
            invariant
                result.wf(),
                ends@.len() == result.vectors@.len(),
                ci == cols,
                ri == rows,
                cols == result.cols,
                rows == result.rows,
                b == result.block_size,
                ci * b <= i32::MAX,
                ri * b <= i32::MAX,
                ci * ri <= i32::MAX,
                by < rows,
                bx <= cols,
                goal == arrows_from(img@, result.vectors@, ends@, ci, ri, b as int, bx as int, by as int),
            decreases cols - bx,
        {
            proof {
                assert(by * ci + bx < ci * ri) by (nonlinear_arith)
                    requires bx < ci, by < ri;
                assert(0 <= bx * b + b / 2 <= i32::MAX && 0 <= by * b + b / 2 <= i32::MAX) by (nonlinear_arith)
                    requires bx < ci, by < ri, ci * b <= i32::MAX, ri * b <= i32::MAX, b >= 0;
            }
            let i = (by * cols + bx) as usize;
            let mv = result.vectors[i];
            if !(mv.dx == 0 && mv.dy == 0) {
                let cx = bx as i64 * b + b / 2;
                let cy = by as i64 * b + b / 2;
                let (ex, ey) = ends[i];
                draw_line(img, cx, cy, ex as i64, ey as i64, ARROW_COLOR);
            }
            bx = bx + 1;
        }
        by = by + 1;
    }
}

/// The picture [`render_diff`] draws.
pub open spec fn diff_picture(
    base: ImageView,
    result: BlockMatchResult,
    color: [u8; 3],
    opts: RenderOptions,
    vector_ends: Seq<(i32, i32)>,
) -> ImageView {
    let painted = paint_regions_view(
        base,
        crate::clustering::regions_spec(result, opts.merge_gap, opts.min_blocks),
        color,
        opts.style,
    );
    if opts.draw_vectors {
        arrows_from(
            painted,
            result.vectors@,
            vector_ends,
            result.cols as int,
            result.rows as int,
            result.block_size as int,
            0,
            0,
        )
    } else {
        painted
    }
}

/// What the result must satisfy for rendering: one vector per grid cell,
/// a grid whose cell count fits `i32` and whose pixel extent fits `i32`.
pub open spec fn renderable(result: BlockMatchResult) -> bool {
    &&& result.wf()
    &&& result.cols as int * result.rows as int <= i32::MAX
    &&& result.cols as int * result.block_size as int <= i32::MAX
    &&& result.rows as int * result.block_size as int <= i32::MAX
}

/// Draws the unmatched regions of `result` onto a copy of `base` in the
/// configured style, plus the motion-vector lines when asked (their end
/// points, one per block, are `vector_ends`).
pub fn render_diff(
    base: &RgbaBuffer,
    result: &BlockMatchResult,
    color: [u8; 3],
    opts: &RenderOptions,
    vector_ends: &Vec<(i32, i32)>,
) -> (out: RgbaBuffer)
    requires
        renderable(*result),
        opts.draw_vectors ==> vector_ends@.len() == result.vectors@.len(),
    ensures
        out@ == diff_picture(base@, *result, color, *opts, vector_ends@),
{
    let mut out = base.duplicate();
    let regions = result.unmatched_regions(opts.merge_gap, opts.min_blocks);
    paint_regions(&mut out, &regions, color, opts.style);
    if opts.draw_vectors {
        draw_vectors(&mut out, result, vector_ends);
    }
    out
}

/// The RGBA bytes that `image::imageops::overlay` leaves in a
/// `bw`×`bh` image with bytes `bottom` after drawing the `tw`×`th` image
/// with bytes `top` onto it with its top-left corner at `(x, y)`.
pub uninterp spec fn overlaid(bottom: Seq<u8>, bw: u32, bh: u32, top: Seq<u8>, tw: u32, th: u32, x: i64, y: i64) -> Seq<u8>;

/// Draws one RGBA image onto another with `image::imageops::overlay`.
/// Trusted: the resulting bytes are what that function leaves (named
/// [`overlaid`]); the bottom image keeps its size, as the function only
/// writes pixels inside it.
#[verifier::external_body]
fn overlay_rgba(bottom: Vec<u8>, bw: u32, bh: u32, top: &Vec<u8>, tw: u32, th: u32, x: i64, y: i64) -> (out: Vec<u8>)
    requires
        bottom@.len() == bw as int * bh as int * 4,
        top@.len() == tw as int * th as int * 4,
    ensures
        out@ == overlaid(bottom@, bw, bh, top@, tw, th, x, y),
        out@.len() == bottom@.len(),
{
    let mut b = image::RgbaImage::from_raw(bw, bh, bottom).unwrap();
    let t = image::RgbaImage::from_raw(tw, th, top.clone()).unwrap();
    image::imageops::overlay(&mut b, &t, x, y);
    b.into_raw()
}

fn overlay_onto(bottom: RgbaBuffer, top: &RgbaBuffer, x: i64, y: i64) -> (out: RgbaBuffer)
    ensures
        out@ == (ImageView {
            width: bottom@.width,
            height: bottom@.height,
            data: overlaid(
                bottom@.data,
                bottom@.width as u32,
                bottom@.height as u32,
                top@.data,
                top@.width as u32,
                top@.height as u32,
                x,
                y,
            ),
        }),
{
    let bw = bottom.width();
    let bh = bottom.height();
    let tw = top.width();
    let th = top.height();
    let data = overlay_rgba(bottom.into_raw(), bw, bh, top.as_raw(), tw, th, x, y);
    RgbaBuffer::from_raw(bw, bh, data).unwrap()
}

pub proof fn lemma_paint_regions_size(v: ImageView, regions: Seq<Region>, color: [u8; 3], style: HighlightStyle)
    requires
        v.wf(),
    ensures
        paint_regions_view(v, regions, color, style).wf(),
        paint_regions_view(v, regions, color, style).width == v.width,
        paint_regions_view(v, regions, color, style).height == v.height,
    decreases regions.len(),
{
    if regions.len() > 0 {
        let r = regions[0];
        match style {
            HighlightStyle::Filled => {
                lemma_repaint_channels(v, |x: int, y: int| in_rect(v, r, x, y), blend_with(color, FILLED_ALPHA));
            },
            HighlightStyle::Outline { stroke } => {
                lemma_repaint_channels(
                    v,
                    |x: int, y: int| in_outline(v, r, stroke, x, y),
                    fill_with([color[0], color[1], color[2], 255]),
                );
            },
        }
        lemma_paint_regions_size(paint_region_view(v, r, color, style), regions.drop_first(), color, style);
    }
}

pub proof fn lemma_arrows_size(
    v: ImageView,
    vs: Seq<crate::block_match::MotionVector>,
    ends: Seq<(i32, i32)>,
    cols: int,
    rows: int,
    bs: int,
    bx: int,
    by: int,
)
    requires
        v.wf(),
    ensures
        arrows_from(v, vs, ends, cols, rows, bs, bx, by).wf(),
        arrows_from(v, vs, ends, cols, rows, bs, bx, by).width == v.width,
        arrows_from(v, vs, ends, cols, rows, bs, bx, by).height == v.height,
    decreases rows - by, cols - bx,
{
    if by >= rows || cols <= 0 {
    } else if bx >= cols {
        lemma_arrows_size(v, vs, ends, cols, rows, bs, 0, by + 1);
    } else {
        let i = by * cols + bx;
        let next = if vs[i].dx == 0 && vs[i].dy == 0 {
            v
        } else {
            line_view(v, bx * bs + bs / 2, by * bs + bs / 2, ends[i].0 as int, ends[i].1 as int, ARROW_COLOR)
        };
        lemma_repaint_channels(
            v,
            |x: int, y: int| in_seq(line_points(bx * bs + bs / 2, by * bs + bs / 2, ends[i].0 as int, ends[i].1 as int), (x, y)),
            fill_with(ARROW_COLOR),
        );
        lemma_arrows_size(next, vs, ends, cols, rows, bs, bx + 1, by);
    }
}

/// Rendering keeps the size of the base image.
pub proof fn lemma_diff_picture_size(
    base: ImageView,
    result: BlockMatchResult,
    color: [u8; 3],
    opts: RenderOptions,
    ends: Seq<(i32, i32)>,
)
    requires
        base.wf(),
    ensures
        diff_picture(base, result, color, opts, ends).wf(),
        diff_picture(base, result, color, opts, ends).width == base.width,
        diff_picture(base, result, color, opts, ends).height == base.height,
{
    let regions = crate::clustering::regions_spec(result, opts.merge_gap, opts.min_blocks);
    lemma_paint_regions_size(base, regions, color, opts.style);
    lemma_arrows_size(
        paint_regions_view(base, regions, color, opts.style),
        result.vectors@,
        ends,
        result.cols as int,
        result.rows as int,
        result.block_size as int,
        0,
        0,
    );
}

/// Gap between the two panels of [`render_bidirectional`].
pub const PANEL_GAP: u32 = 4;

pub open spec fn max_nat(a: nat, b: nat) -> nat {
    if a >= b {
        a
    } else {
        b
    }
}

/// The picture [`render_bidirectional`] draws: a dark canvas with the
/// reference panel (removed regions in red) at the left and the target
/// panel (added regions in green) `PANEL_GAP` pixels to its right.
pub open spec fn bidirectional_picture(
    reference: ImageView,
    target: ImageView,
    forward: BlockMatchResult,
    reverse: BlockMatchResult,
    opts: RenderOptions,
    forward_ends: Seq<(i32, i32)>,
    reverse_ends: Seq<(i32, i32)>,
) -> ImageView {
    let left = diff_picture(reference, forward, [220u8, 50u8, 50u8], opts, forward_ends);
    let right = diff_picture(target, reverse, [40u8, 180u8, 80u8], opts, reverse_ends);
    let w = (left.width + right.width + PANEL_GAP) as nat;
    let h = max_nat(left.height, right.height);
    let canvas = Seq::new((w * h * 4) as nat, |i: int| if i % 4 == 3 { 255u8 } else { 30u8 });
    let with_left = overlaid(canvas, w as u32, h as u32, left.data, left.width as u32, left.height as u32, 0, 0);
    ImageView {
        width: w,
        height: h,
        data: overlaid(
            with_left,
            w as u32,
            h as u32,
            right.data,
            right.width as u32,
            right.height as u32,
            (left.width + PANEL_GAP) as i64,
            0,
        ),
    }
}

/// Side-by-side composite of a bidirectional diff: the reference with the
/// removed regions in red at the left, the target with the added regions
/// in green at the right, on a dark background.
pub fn render_bidirectional(
    reference: &RgbaBuffer,
    target: &RgbaBuffer,
    diff: &crate::block_match::BidirectionalDiff,
    opts: &RenderOptions,
    forward_ends: &Vec<(i32, i32)>,
    reverse_ends: &Vec<(i32, i32)>,
) -> (out: RgbaBuffer)
    requires
        renderable(diff.forward),
        renderable(diff.reverse),
        opts.draw_vectors ==> forward_ends@.len() == diff.forward.vectors@.len(),
        opts.draw_vectors ==> reverse_ends@.len() == diff.reverse.vectors@.len(),
        reference@.width + target@.width + PANEL_GAP <= u32::MAX,
        (reference@.width + target@.width + PANEL_GAP) * max_nat(reference@.height, target@.height) * 4 <= usize::MAX,
    ensures
        out@ == bidirectional_picture(
            reference@,
            target@,
            diff.forward,
            diff.reverse,
            *opts,
            forward_ends@,
            reverse_ends@,
        ),
{
    let left = render_diff(reference, &diff.forward, [220, 50, 50], opts, forward_ends);
    let right = render_diff(target, &diff.reverse, [40, 180, 80], opts, reverse_ends);
    // Asking for the widths brings in that both images are well formed.
    let _ = reference.width();
    let _ = target.width();
    proof {
        lemma_diff_picture_size(reference@, diff.forward, [220u8, 50u8, 50u8], *opts, forward_ends@);
        lemma_diff_picture_size(target@, diff.reverse, [40u8, 180u8, 80u8], *opts, reverse_ends@);
    }
    let lw = left.width();
    let w = lw + right.width() + PANEL_GAP;
    let h = if left.height() >= right.height() { left.height() } else { right.height() };
    let canvas = RgbaBuffer::from_pixel(w, h, [30, 30, 30, 255]);
    proof {
        let cv = ImageView {
            width: w as nat,
            height: h as nat,
            data: Seq::new((w * h * 4) as nat, |i: int| if i % 4 == 3 { 255u8 } else { 30u8 }),
        };
        assert forall|x: int, y: int, c: int| canvas@.in_bounds(x, y) && 0 <= c < 4 implies #[trigger] canvas@.channel(x, y, c)
            == cv.channel(x, y, c) by {
            crate::buffer::lemma_offset_in_bounds(cv, x, y, c);
            let o = cv.offset(x, y, c);
            assert(o % 4 == c) by (nonlinear_arith)
                requires o == (y * w + x) * 4 + c, 0 <= c < 4, 0 <= x, 0 <= y;
        }
        lemma_view_ext(canvas@, cv);
    }
    let with_left = overlay_onto(canvas, &left, 0, 0);
    overlay_onto(with_left, &right, (lw + PANEL_GAP) as i64, 0)
}

/// Largest cost below `u64::MAX` among the vectors, 0 if there is none.
pub open spec fn finite_max_cost(vs: Seq<crate::block_match::MotionVector>) -> int
    decreases vs.len(),
{
    if vs.len() == 0 {
        0
    } else {
        let m = finite_max_cost(vs.drop_last());
        let c = vs.last().cost as int;
        if c != u64::MAX && c > m {
            c
        } else {
            m
        }
    }
}

/// The cost mapped to full red in a heatmap: `max_cost` when given,
/// otherwise the largest finite block cost, and at least 1.
pub open spec fn heatmap_cap_spec(vs: Seq<crate::block_match::MotionVector>, max_cost: Option<u64>) -> int {
    match max_cost {
        Some(c) => c as int,
        None => if finite_max_cost(vs) < 1 { 1 } else { finite_max_cost(vs) },
    }
}

/// The cost cap of a heatmap; see [`heatmap_cap_spec`].
pub fn heatmap_cap(result: &BlockMatchResult, max_cost: Option<u64>) -> (cap: u64)
    ensures
        cap == heatmap_cap_spec(result.vectors@, max_cost),
{
    match max_cost {
        Some(c) => c,
        None => {
            let mut m: u64 = 0;
            let mut i: usize = 0;
            while i < result.vectors.len()
                invariant
                    i <= result.vectors@.len(),
                    m == finite_max_cost(result.vectors@.take(i as int)),
                decreases result.vectors@.len() - i,
            {
                proof {
                    assert(result.vectors@.take(i as int + 1).drop_last() =~= result.vectors@.take(i as int));
                }
                let c = result.vectors[i].cost;
                if c != u64::MAX && c > m {
                    m = c;
                }
                i = i + 1;
            }
            assert(result.vectors@.take(i as int) =~= result.vectors@);
            if m < 1 {
                1
            } else {
                m
            }
        }
    }
}

/// The cost of a block clamped to the cap; a block without any comparable
/// match counts as the cap.
pub fn heat_level(cost: u64, cap: u64) -> (level: u64)
    ensures
        level == if cost == u64::MAX { cap } else if cost < cap { cost } else { cap },
{
    if cost == u64::MAX {
        cap
    } else if cost < cap {
        cost
    } else {
        cap
    }
}

/// The tint of each pixel of the block grid: channels blended with the
/// color of the block the pixel belongs to.
pub open spec fn block_tint(colors: Seq<[u8; 3]>, cols: int, bs: int, alpha: u8) -> spec_fn(int, int, int, u8) -> u8 {
    |x: int, y: int, c: int, old: u8| if c < 3 { blend(colors[(y / bs) * cols + x / bs][c], old, alpha) } else { old }
}

/// `base` with every pixel of block `(bx, by)` of the grid blended with
/// `colors[by * cols + bx]` at opacity `alpha / 255`.
pub open spec fn heatmap_view(base: ImageView, cols: int, rows: int, bs: int, colors: Seq<[u8; 3]>, alpha: u8) -> ImageView {
    repaint(base, |x: int, y: int| 0 <= x < cols * bs && 0 <= y < rows * bs, block_tint(colors, cols, bs, alpha))
}

/// Tints every block of `result`'s grid on a copy of `base` with its
/// color from `block_colors` (one per block, row-major), blended at
/// opacity `alpha / 255`.
pub fn render_heatmap(base: &RgbaBuffer, result: &BlockMatchResult, block_colors: &Vec<[u8; 3]>, alpha: u8) -> (out: RgbaBuffer)
    requires
        block_colors@.len() == result.cols as int * result.rows as int,
        result.cols as int * result.block_size as int <= u32::MAX,
        result.rows as int * result.block_size as int <= u32::MAX,
    ensures
        out@ == heatmap_view(
            base@,
            result.cols as int,
            result.rows as int,
            result.block_size as int,
            block_colors@,
            alpha,
        ),
{
    let mut out = base.duplicate();
    let w = out.width();
    let h = out.height();
    let ghost v = out@;
    let bs = result.block_size;
    let cols = result.cols;
    let rows = result.rows;
    let ghost ci = cols as int;
    let ghost ri = rows as int;
    let ghost f = block_tint(block_colors@, ci, bs as int, alpha);
    let nc = block_colors.len();
    let xe: u32 = if bs == 0 { 0 } else { (min_u64(cols as u64 * bs as u64, w as u64)) as u32 };
    let ye: u32 = if bs == 0 { 0 } else { (min_u64(rows as u64 * bs as u64, h as u64)) as u32 };
    proof {
        lemma_repaint_none(v, |x: int, y: int| 0 <= x < xe && 0 <= y < 0, f);
    }
    let mut y: u32 = 0;
    while y < ye
        invariant
            v.wf(),
            f == block_tint(block_colors@, ci, bs as int, alpha),
            block_colors@.len() == ci * ri,
            nc == ci * ri,
            ci == cols,
            ri == rows,
            xe <= v.width,
            ye <= v.height,
            bs == 0 ==> xe == 0 && ye == 0,
            xe <= ci * bs,
            ye <= ri * bs,
            y <= ye,
            out@ == repaint(v, |x: int, y2: int| 0 <= x < xe && 0 <= y2 < y, f),
        decreases ye - y,
    {
        proof {
            lemma_repaint_same(
                v,
                |x: int, y2: int| 0 <= x < xe && 0 <= y2 < y,
                |x: int, y2: int| (0 <= x < xe && 0 <= y2 < y) || (0 <= x < 0 && y2 == y),
                f,
            );
        }
        let mut x: u32 = 0;
        while x < xe
            invariant
                v.wf(),
                f == block_tint(block_colors@, ci, bs as int, alpha),
                block_colors@.len() == ci * ri,
                nc == ci * ri,
                ci == cols,
                ri == rows,
                xe <= v.width,
                ye <= v.height,
                bs == 0 ==> xe == 0 && ye == 0,
                xe <= ci * bs,
                ye <= ri * bs,
                y < ye,
                x <= xe,
                out@ == repaint(v, |x2: int, y2: int| (0 <= x2 < xe && 0 <= y2 < y) || (0 <= x2 < x && y2 == y), f),
            decreases xe - x,
        {
            let ghost sel = |x2: int, y2: int| (0 <= x2 < xe && 0 <= y2 < y) || (0 <= x2 < x && y2 == y);
            let ghost cur = out@;
            let bx = x / bs;
            let by = y / bs;
            proof {
                assert(bx < ci && by < ri) by (nonlinear_arith)
                    requires bx == x / bs, by == y / bs, x < ci * bs, y < ri * bs, bs > 0;
                assert(by * ci + bx < ci * ri) by (nonlinear_arith)
                    requires bx < ci, by < ri;
                assert(by * ci <= ci * ri) by (nonlinear_arith)
                    requires by < ri, ci >= 0;
                lemma_repaint_channels(v, sel, f);
            }
            let color = block_colors[by as usize * cols as usize + bx as usize];
            blend_pixel(&mut out, x, y, color, alpha);
            proof {
                let p = seq![
                    blend(color[0], cur.channel(x as int, y as int, 0), alpha),
                    blend(color[1], cur.channel(x as int, y as int, 1), alpha),
                    blend(color[2], cur.channel(x as int, y as int, 2), alpha),
                    cur.channel(x as int, y as int, 3),
                ];
                assert forall|c: int| 0 <= c < 4 implies #[trigger] p[c] == f(x as int, y as int, c, v.channel(x as int, y as int, c)) by {
                }
                lemma_repaint_step(
                    v,
                    cur,
                    sel,
                    |x2: int, y2: int| (0 <= x2 < xe && 0 <= y2 < y) || (0 <= x2 < x + 1 && y2 == y),
                    f,
                    x as int,
                    y as int,
                    p,
                );
            }
            x = x + 1;
        }
        proof {
            lemma_repaint_same(
                v,
                |x2: int, y2: int| (0 <= x2 < xe && 0 <= y2 < y) || (0 <= x2 < x && y2 == y),
                |x2: int, y2: int| 0 <= x2 < xe && 0 <= y2 < y + 1,
                f,
            );
        }
        y = y + 1;
    }
    proof {
        lemma_repaint_same(
            v,
            |x: int, y2: int| 0 <= x < xe && 0 <= y2 < y,
            |x: int, y2: int| 0 <= x < ci * bs && 0 <= y2 < ri * bs,
            f,
        );
    }
    out
}

} // verus!
