use vstd::prelude::*;
use crate::buffer::{lemma_offset_in_bounds, ImageView, RgbaBuffer};

verus! {

/// Column of the pixel that byte `i` belongs to.
pub open spec fn byte_x(v: ImageView, i: int) -> int {
    (i / 4) % (v.width as int)
}

/// Row of the pixel that byte `i` belongs to.
pub open spec fn byte_y(v: ImageView, i: int) -> int {
    (i / 4) / (v.width as int)
}

/// `v` where every pixel `(x, y)` with `sel(x, y)` has each channel `c`
/// replaced by `f(x, y, c, old)`.
pub open spec fn repaint(v: ImageView, sel: spec_fn(int, int) -> bool, f: spec_fn(int, int, int, u8) -> u8) -> ImageView {
    ImageView {
        width: v.width,
        height: v.height,
        data: Seq::new(
            v.data.len(),
            |i: int|
                if sel(byte_x(v, i), byte_y(v, i)) {
                    f(byte_x(v, i), byte_y(v, i), i % 4, v.data[i])
                } else {
                    v.data[i]
                },
        ),
    }
}

/// Every byte of a well-formed image is channel `i % 4` of pixel
/// `(byte_x, byte_y)`.
pub proof fn lemma_byte_decompose(v: ImageView, i: int)
    requires
        v.wf(),
        0 <= i < v.data.len(),
    ensures
        v.in_bounds(byte_x(v, i), byte_y(v, i)),
        0 <= i % 4 < 4,
        v.offset(byte_x(v, i), byte_y(v, i), i % 4) == i,
{
    let w = v.width as int;
    let h = v.height as int;
    let p = i / 4;
    vstd::arithmetic::div_mod::lemma_fundamental_div_mod(i, 4);
    assert(i == 4 * p + i % 4 && 0 <= i % 4 < 4);
    assert(0 <= p < w * h) by (nonlinear_arith)
        requires i == 4 * p + i % 4, 0 <= i % 4 < 4, 0 <= i < w * h * 4;
    assert(w > 0) by (nonlinear_arith)
        requires 0 <= p < w * h, h >= 0, w >= 0;
    vstd::arithmetic::div_mod::lemma_fundamental_div_mod(p, w);
    vstd::arithmetic::div_mod::lemma_mod_bound(p, w);
    assert(0 <= p / w < h) by (nonlinear_arith)
        requires p == w * (p / w) + p % w, 0 <= p % w < w, 0 <= p < w * h, w > 0;
    assert((p / w * w + p % w) * 4 + i % 4 == i) by (nonlinear_arith)
        requires p == w * (p / w) + p % w, i == 4 * p + i % 4;
}

/// Pixels are stored at distinct bytes.
pub proof fn lemma_offset_injective(v: ImageView, x1: int, y1: int, c1: int, x2: int, y2: int, c2: int)
    requires
        v.wf(),
        v.in_bounds(x1, y1),
        v.in_bounds(x2, y2),
        0 <= c1 < 4,
        0 <= c2 < 4,
        v.offset(x1, y1, c1) == v.offset(x2, y2, c2),
    ensures
        x1 == x2,
        y1 == y2,
        c1 == c2,
{
    let w = v.width as int;
    let o = v.offset(x1, y1, c1);
    assert(o == (y1 * w + x1) * 4 + c1 && o == (y2 * w + x2) * 4 + c2);
    assert(c1 == c2 && y1 * w + x1 == y2 * w + x2) by (nonlinear_arith)
        requires (y1 * w + x1) * 4 + c1 == (y2 * w + x2) * 4 + c2, 0 <= c1 < 4, 0 <= c2 < 4;
    assert(y1 == y2 && x1 == x2) by (nonlinear_arith)
        requires y1 * w + x1 == y2 * w + x2, 0 <= x1 < w, 0 <= x2 < w, 0 <= y1, 0 <= y2;
}

/// Two well-formed images of the same size with the same channels are equal.
pub proof fn lemma_view_ext(a: ImageView, b: ImageView)
    requires
        a.wf(),
        b.wf(),
        a.width == b.width,
        a.height == b.height,
        forall|x: int, y: int, c: int| a.in_bounds(x, y) && 0 <= c < 4 ==> #[trigger] a.channel(x, y, c) == b.channel(x, y, c),
    ensures
        a == b,
{
    assert forall|i: int| 0 <= i < a.data.len() implies a.data[i] == b.data[i] by {
        lemma_byte_decompose(a, i);
        assert(a.channel(byte_x(a, i), byte_y(a, i), i % 4) == b.channel(byte_x(a, i), byte_y(a, i), i % 4));
    }
    assert(a.data =~= b.data);
}

pub proof fn lemma_repaint_channel(v: ImageView, sel: spec_fn(int, int) -> bool, f: spec_fn(int, int, int, u8) -> u8, x: int, y: int, c: int)
    requires
        v.wf(),
        v.in_bounds(x, y),
        0 <= c < 4,
    ensures
        repaint(v, sel, f).wf(),
        repaint(v, sel, f).channel(x, y, c) == if sel(x, y) {
            f(x, y, c, v.channel(x, y, c))
        } else {
            v.channel(x, y, c)
        },
{
    lemma_offset_in_bounds(v, x, y, c);
    let i = v.offset(x, y, c);
    lemma_byte_decompose(v, i);
    lemma_offset_injective(v, x, y, c, byte_x(v, i), byte_y(v, i), i % 4);
}

/// Channels of a repainted image, for every pixel.
pub proof fn lemma_repaint_channels(v: ImageView, sel: spec_fn(int, int) -> bool, f: spec_fn(int, int, int, u8) -> u8)
    requires
        v.wf(),
    ensures
        repaint(v, sel, f).wf(),
        repaint(v, sel, f).width == v.width,
        repaint(v, sel, f).height == v.height,
        forall|x: int, y: int, c: int|
            v.in_bounds(x, y) && 0 <= c < 4 ==> #[trigger] repaint(v, sel, f).channel(x, y, c) == if sel(x, y) {
                f(x, y, c, v.channel(x, y, c))
            } else {
                v.channel(x, y, c)
            },
{
    assert forall|x: int, y: int, c: int| v.in_bounds(x, y) && 0 <= c < 4 implies #[trigger] repaint(v, sel, f).channel(
        x,
        y,
        c,
    ) == if sel(x, y) {
        f(x, y, c, v.channel(x, y, c))
    } else {
        v.channel(x, y, c)
    } by {
        lemma_repaint_channel(v, sel, f, x, y, c);
    }
}

/// Channels after replacing one pixel.
pub proof fn lemma_with_pixel_channels(v: ImageView, x: int, y: int, p: Seq<u8>)
    requires
        v.wf(),
        v.in_bounds(x, y),
        p.len() == 4,
    ensures
        v.with_pixel(x, y, p).wf(),
        v.with_pixel(x, y, p).width == v.width,
        v.with_pixel(x, y, p).height == v.height,
        forall|x2: int, y2: int, c: int|
            v.in_bounds(x2, y2) && 0 <= c < 4 ==> #[trigger] v.with_pixel(x, y, p).channel(x2, y2, c) == if x2 == x && y2
                == y {
                p[c]
            } else {
                v.channel(x2, y2, c)
            },
{
    lemma_offset_in_bounds(v, x, y, 0);
    lemma_offset_in_bounds(v, x, y, 1);
    lemma_offset_in_bounds(v, x, y, 2);
    lemma_offset_in_bounds(v, x, y, 3);
    assert forall|x2: int, y2: int, c: int| v.in_bounds(x2, y2) && 0 <= c < 4 implies #[trigger] v.with_pixel(x, y, p).channel(
        x2,
        y2,
        c,
    ) == if x2 == x && y2 == y {
        p[c]
    } else {
        v.channel(x2, y2, c)
    } by {
        lemma_offset_in_bounds(v, x2, y2, c);
        lemma_offset_in_bounds(v, x, y, 0);
        lemma_offset_in_bounds(v, x, y, 3);
        if !(x2 == x && y2 == y) {
            assert forall|k: int| 0 <= k < 4 implies v.offset(x, y, k) != v.offset(x2, y2, c) by {
                if v.offset(x, y, k) == v.offset(x2, y2, c) {
                    lemma_offset_injective(v, x, y, k, x2, y2, c);
                }
            }
        }
    }
}

/// Repainting one more pixel, given its new value, extends the selection.
pub proof fn lemma_repaint_step(
    v: ImageView,
    cur: ImageView,
    sel: spec_fn(int, int) -> bool,
    sel2: spec_fn(int, int) -> bool,
    f: spec_fn(int, int, int, u8) -> u8,
    x: int,
    y: int,
    p: Seq<u8>,
)
    requires
        v.wf(),
        v.in_bounds(x, y),
        cur == repaint(v, sel, f),
        p.len() == 4,
        forall|c: int| 0 <= c < 4 ==> #[trigger] p[c] == f(x, y, c, v.channel(x, y, c)),
        forall|x2: int, y2: int| v.in_bounds(x2, y2) ==> #[trigger] sel2(x2, y2) == (sel(x2, y2) || (x2 == x && y2 == y)),
    ensures
        cur.with_pixel(x, y, p) == repaint(v, sel2, f),
{
    lemma_repaint_channels(v, sel, f);
    lemma_repaint_channels(v, sel2, f);
    lemma_with_pixel_channels(cur, x, y, p);
    lemma_view_ext(cur.with_pixel(x, y, p), repaint(v, sel2, f));
}

/// Repainting with selections that agree on the image gives the same image.
pub proof fn lemma_repaint_same(v: ImageView, s1: spec_fn(int, int) -> bool, s2: spec_fn(int, int) -> bool, f: spec_fn(int, int, int, u8) -> u8)
    requires
        v.wf(),
        forall|x: int, y: int| v.in_bounds(x, y) ==> #[trigger] s1(x, y) == s2(x, y),
    ensures
        repaint(v, s1, f) == repaint(v, s2, f),
{
    lemma_repaint_channels(v, s1, f);
    lemma_repaint_channels(v, s2, f);
    lemma_view_ext(repaint(v, s1, f), repaint(v, s2, f));
}

/// Repainting nothing changes nothing.
pub proof fn lemma_repaint_none(v: ImageView, s: spec_fn(int, int) -> bool, f: spec_fn(int, int, int, u8) -> u8)
    requires
        v.wf(),
        forall|x: int, y: int| v.in_bounds(x, y) ==> !#[trigger] s(x, y),
    ensures
        repaint(v, s, f) == v,
{
    lemma_repaint_channels(v, s, f);
    lemma_view_ext(repaint(v, s, f), v);
}

} // verus!
